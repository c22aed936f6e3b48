//! File names: which files belong to a trace, in which order they are read, and
//! where captured data goes.

use crate::sorting::{self, sorted_order, InputKey, SortKey};
use crate::text::{
    self, all_digits, chars_of, parse_number, push_decimal, strip_prefix, strip_suffix,
};
use vstd::prelude::*;

verus! {

/// The processor number that `s` writes with digits alone.
pub open spec fn cpu_number(s: Seq<char>) -> Option<nat> {
    if s.len() > 0 && (forall|i: int| 0 <= i < s.len() ==> text::is_digit(#[trigger] s[i]))
        && text::digits_value(s) <= u32::MAX {
        Some(text::digits_value(s))
    } else {
        None
    }
}

/// The processor that a relay file belongs to: its name is `trace` and the
/// number of the processor.
pub open spec fn trace_cpu(name: Seq<char>) -> Option<nat> {
    if text::starts_with(name, "trace"@) {
        cpu_number(name.skip("trace"@.len() as int))
    } else {
        None
    }
}

/// The processor that a captured file belongs to: its name is `cpu`, the number
/// of the processor and `.bin`.
pub open spec fn cpu_bin(name: Seq<char>) -> Option<nat> {
    let rest = name.skip("cpu"@.len() as int);
    if text::starts_with(name, "cpu"@) && text::ends_with(rest, ".bin"@) {
        cpu_number(rest.take(rest.len() - ".bin"@.len()))
    } else {
        None
    }
}

/// What an optional number is.
pub open spec fn as_nat(value: Option<u32>) -> Option<nat> {
    match value {
        Some(v) => Some(v as nat),
        None => None,
    }
}

fn parse_cpu_number(s: &[char]) -> (cpu: Option<u32>)
    ensures
        as_nat(cpu) == cpu_number(s@),
{
    if s.len() == 0 || !all_digits(s) {
        return None;
    }
    assert(text::is_digit(s@[0]));
    match parse_number(s, u32::MAX as u64) {
        Some(value) => Some(value as u32),
        None => None,
    }
}

/// Takes the processor from the name of a relay file.
pub fn parse_trace_cpu(name: &str) -> (cpu: Option<u32>)
    ensures
        as_nat(cpu) == trace_cpu(name@),
{
    let chars = chars_of(name);
    match strip_prefix(chars.as_slice(), "trace") {
        Some(suffix) => parse_cpu_number(suffix),
        None => None,
    }
}

/// Takes the processor from the name of a captured file.
pub fn parse_cpu_bin(name: &str) -> (cpu: Option<u32>)
    ensures
        as_nat(cpu) == cpu_bin(name@),
{
    let chars = chars_of(name);
    match strip_prefix(chars.as_slice(), "cpu") {
        Some(rest) => match strip_suffix(rest, ".bin") {
            Some(suffix) => parse_cpu_number(suffix),
            None => None,
        },
        None => None,
    }
}

/// A relative path below a directory. The directory needs no separator where it
/// is empty or has one at its end.
pub open spec fn below(dir: Seq<char>, path: Seq<char>) -> Seq<char> {
    if dir.len() == 0 || dir.last() == '/' {
        dir + path
    } else {
        dir + "/"@ + path
    }
}

/// Puts a relative path below a directory.
pub fn join_path(dir: &str, path: &str) -> (joined: String)
    ensures
        joined@ == below(dir@, path@),
{
    let chars = chars_of(dir);
    let mut joined = dir.to_owned();
    if chars.len() > 0 && chars[chars.len() - 1] != '/' {
        joined.append("/");
    }
    joined.append(path);
    joined
}

/// The file that the data of a processor is captured to.
pub open spec fn capture_file(out_dir: Seq<char>, cpu: u32) -> Seq<char> {
    below(out_dir, "cpu"@ + text::decimal(cpu as nat) + ".bin"@)
}

/// Where the data of a processor is captured to.
pub fn output_file_for_cpu(out_dir: &str, cpu: u32) -> (path: String)
    ensures
        path@ == capture_file(out_dir@, cpu),
{
    let mut name = "cpu".to_owned();
    push_decimal(&mut name, cpu as u128);
    name.append(".bin");
    join_path(out_dir, name.as_str())
}

/// A file as a listing shows it: its name within its directory, empty where
/// there is none, and its whole path.
#[derive(Debug, Clone, PartialEq, Eq)]
pub struct FileName {
    pub name: String,
    pub path: String,
}

/// What a file is sorted by.
pub open spec fn sorted_by(file: FileName, key: InputKey) -> bool {
    as_nat(key.cpu) == cpu_bin(file.name@) && key.path@ == file.path@
}

/// Gives what a file is sorted by.
pub fn sort_input_path(file: &FileName) -> (key: InputKey)
    ensures
        sorted_by(*file, key),
{
    InputKey { cpu: parse_cpu_bin(file.name.as_str()), path: file.path.clone() }
}

fn keys_of(files: &Vec<FileName>) -> (keys: Vec<InputKey>)
    ensures
        keys@.len() == files@.len(),
        forall|i: int| 0 <= i < files@.len() ==> sorted_by(files@[i], #[trigger] keys@[i]),
{
    let mut keys: Vec<InputKey> = Vec::new();
    while keys.len() < files.len()
        invariant
            keys@.len() <= files@.len(),
            forall|i: int| 0 <= i < keys@.len() ==> sorted_by(files@[i], #[trigger] keys@[i]),
        decreases files@.len() - keys@.len(),
    {
        let key = sort_input_path(&files[keys.len()]);
        keys.push(key);
    }
    keys
}

/// `order` puts files in the order in which they are read: by processor, those
/// without one first, then by path, and otherwise as they stand.
pub open spec fn in_reading_order(order: Seq<usize>, files: Seq<FileName>) -> bool {
    exists|keys: Seq<InputKey>|
        {
            &&& keys.len() == files.len()
            &&& forall|i: int| 0 <= i < files.len() ==> sorted_by(files[i], #[trigger] keys[i])
            &&& #[trigger] sorting::sorts(order, keys)
        }
}

/// Tells in which order files are read.
pub fn expand_input_paths(files: &Vec<FileName>) -> (order: Vec<usize>)
    ensures
        sorting::names_each_once(order@, files@.len()),
        in_reading_order(order@, files@),
{
    let keys = keys_of(files);
    sorted_order(&keys)
}

/// Tells which of the files in a directory belong to a trace, in the order in
/// which they are read.
#[verifier::rlimit(30)]
pub fn expand_trace_dir(files: &Vec<FileName>) -> (order: Vec<usize>)
    ensures
        forall|i: int| 0 <= i < order@.len() ==> (#[trigger] order@[i]) < files@.len(),
        forall|i: int, j: int|
            #![trigger order@[i], order@[j]]
            0 <= i < j < order@.len() ==> order@[i] != order@[j],
        forall|k: usize|
            k < files@.len() ==> (order@.contains(k) <==> cpu_bin(
                (#[trigger] files@[k as int]).name@,
            ) is Some),
        in_reading_order(order@, files@),
{
    let keys = keys_of(files);
    let all = sorted_order(&keys);
    let mut order: Vec<usize> = Vec::new();
    let mut i: usize = 0;
    let ghost mut from: Seq<int> = seq![];
    while i < all.len()
        invariant
            i <= all@.len(),
            keys@.len() == files@.len(),
            forall|j: int| 0 <= j < files@.len() ==> sorted_by(files@[j], #[trigger] keys@[j]),
            sorting::names_each_once(all@, files@.len()),
            sorting::sorts(all@, keys@),
            from.len() == order@.len(),
            forall|a: int|
                0 <= a < from.len() ==> 0 <= #[trigger] from[a] < i && all@[from[a]] == order@[a]
                    && keys@[order@[a] as int].cpu is Some,
            forall|a: int, b: int|
                #![trigger from[a], from[b]]
                0 <= a < b < from.len() ==> from[a] < from[b],
            forall|j: int|
                0 <= j < i && keys@[#[trigger] all@[j] as int].cpu is Some ==> exists|a: int|
                    0 <= a < from.len() && #[trigger] from[a] == j,
        decreases all@.len() - i,
    {
        let k: usize = all[i];
        if keys[k].cpu.is_some() {
            let ghost before = from;
            order.push(k);
            proof {
                from = from.push(i as int);
                assert forall|j: int|
                    0 <= j < i + 1 && keys@[#[trigger] all@[j] as int].cpu is Some implies exists|
                    a: int,
                | 0 <= a < from.len() && #[trigger] from[a] == j by {
                    if j == i {
                        assert(from[before.len() as int] == j);
                    } else {
                        let a = choose|a: int| 0 <= a < before.len() && #[trigger] before[a] == j;
                        assert(from[a] == j);
                    }
                }
            }
        }
        i = i + 1;
    }
    proof {
        assert forall|a: int, b: int|
            #![trigger order@[a], order@[b]]
            0 <= a < b < order@.len() implies {
            &&& order@[a] != order@[b]
            &&& !keys@[order@[b] as int].key_less(&keys@[order@[a] as int])
            &&& keys@[order@[a] as int].key_less(&keys@[order@[b] as int]) || order@[a] < order@[b]
        } by {
            assert(from[a] < from[b]);
        }
        assert(sorting::sorts(order@, keys@));
        assert forall|k: usize| k < files@.len() implies (order@.contains(k) <==> cpu_bin(
            (#[trigger] files@[k as int]).name@,
        ) is Some) by {
            assert(sorted_by(files@[k as int], keys@[k as int]));
            if order@.contains(k) {
                let a = choose|a: int| 0 <= a < order@.len() && order@[a] == k;
                assert(0 <= from[a] < i);
            }
            if keys@[k as int].cpu is Some {
                lemma_names_all(all@, files@.len(), k);
                let j = choose|j: int| 0 <= j < all@.len() && #[trigger] all@[j] == k;
                let a = choose|a: int| 0 <= a < from.len() && #[trigger] from[a] == j;
                assert(order@[a] == k);
            }
        }
        assert forall|a: int| 0 <= a < order@.len() implies (#[trigger] order@[a])
            < files@.len() by {
            assert(all@[from[a]] == order@[a]);
        }
    }
    order
}

/// A list that names each thing once names every thing.
proof fn lemma_names_all(order: Seq<usize>, n: nat, k: usize)
    requires
        sorting::names_each_once(order, n),
        k < n,
    ensures
        exists|j: int| 0 <= j < order.len() && #[trigger] order[j] == k,
{
    let ints = Seq::new(n, |i: int| order[i] as int);
    let image = ints.to_set();
    let full = Set::new(|i: int| 0 <= i < n);
    ints.unique_seq_to_set();
    vstd::set_lib::lemma_int_range(0, n as int);
    assert(full =~= vstd::set_lib::set_int_range(0, n as int));
    assert(image.subset_of(full));
    vstd::set_lib::lemma_subset_equality(image, full);
    assert(image.contains(k as int));
    let j = choose|j: int| 0 <= j < ints.len() && ints[j] == k as int;
    assert(order[j] == k);
}

/// A relay file of a listing, and the processor that it belongs to.
#[derive(Debug, Clone, Copy, PartialEq, Eq, Structural)]
pub struct TraceFile {
    pub cpu: u32,
    pub index: usize,
}

/// `files` are the relay files among `names`, by processor, and as they are
/// listed where two belong to one processor.
pub open spec fn relay_files(names: Seq<String>, files: Seq<TraceFile>) -> bool {
    &&& forall|a: int|
        0 <= a < files.len() ==> (#[trigger] files[a]).index < names.len() && trace_cpu(
            names[files[a].index as int]@,
        ) == Some(files[a].cpu as nat)
    &&& forall|k: usize|
        k < names.len() && trace_cpu((#[trigger] names[k as int])@) is Some ==> exists|a: int|
            0 <= a < files.len() && (#[trigger] files[a]).index == k
    &&& forall|a: int, b: int|
        #![trigger files[a], files[b]]
        0 <= a < b < files.len() ==> files[a].cpu < files[b].cpu || files[a].cpu == files[b].cpu
            && files[a].index < files[b].index
}

/// Finds the relay files among the names of files.
#[verifier::rlimit(30)]
pub fn discover_trace_files(names: &Vec<String>) -> (files: Vec<TraceFile>)
    ensures
        relay_files(names@, files@),
{
    let mut found: Vec<TraceFile> = Vec::new();
    let mut cpus: Vec<u32> = Vec::new();
    let mut i: usize = 0;
    while i < names.len()
        invariant
            i <= names@.len(),
            cpus@.len() == found@.len(),
            forall|a: int|
                0 <= a < found@.len() ==> (#[trigger] found@[a]).index < i && trace_cpu(
                    names@[found@[a].index as int]@,
                ) == Some(found@[a].cpu as nat) && cpus@[a] == found@[a].cpu,
            forall|a: int, b: int|
                #![trigger found@[a], found@[b]]
                0 <= a < b < found@.len() ==> found@[a].index < found@[b].index,
            forall|k: usize|
                k < i && trace_cpu((#[trigger] names@[k as int])@) is Some ==> exists|a: int|
                    0 <= a < found@.len() && (#[trigger] found@[a]).index == k,
        decreases names@.len() - i,
    {
        if let Some(cpu) = parse_trace_cpu(names[i].as_str()) {
            let ghost before = found@;
            found.push(TraceFile { cpu, index: i });
            cpus.push(cpu);
            proof {
                assert forall|k: usize|
                    k < i + 1 && trace_cpu((#[trigger] names@[k as int])@) is Some implies exists|
                    a: int,
                | 0 <= a < found@.len() && (#[trigger] found@[a]).index == k by {
                    if k == i {
                        assert(found@[before.len() as int].index == k);
                    } else {
                        let a = choose|a: int|
                            0 <= a < before.len() && (#[trigger] before[a]).index == k;
                        assert(found@[a] == before[a]);
                    }
                }
            }
        }
        i = i + 1;
    }
    let order = sorted_order(&cpus);
    let mut files: Vec<TraceFile> = Vec::new();
    while files.len() < order.len()
        invariant
            files@.len() <= order@.len(),
            sorting::names_each_once(order@, found@.len()),
            forall|a: int|
                0 <= a < files@.len() ==> #[trigger] files@[a] == found@[order@[a] as int],
        decreases order@.len() - files@.len(),
    {
        let file = found[order[files.len()]];
        files.push(file);
    }
    proof {
        assert forall|k: usize|
            k < names@.len() && trace_cpu((#[trigger] names@[k as int])@) is Some implies exists|
            a: int,
        | 0 <= a < files@.len() && (#[trigger] files@[a]).index == k by {
            let a = choose|a: int| 0 <= a < found@.len() && (#[trigger] found@[a]).index == k;
            lemma_names_all(order@, found@.len(), a as usize);
            let j = choose|j: int| 0 <= j < order@.len() && #[trigger] order@[j] == a as usize;
            assert(files@[j] == found@[a]);
        }
        assert forall|a: int, b: int|
            #![trigger files@[a], files@[b]]
            0 <= a < b < files@.len() implies files@[a].cpu < files@[b].cpu || files@[a].cpu
            == files@[b].cpu && files@[a].index < files@[b].index by {
            let (x, y) = (order@[a] as int, order@[b] as int);
            assert(!cpus@[y].key_less(&cpus@[x]));
            assert(found@[x].cpu == cpus@[x] && found@[y].cpu == cpus@[y]);
        }
    }
    files
}

/// Why there is nothing to capture or to read.
#[derive(Debug, Clone, PartialEq, Eq)]
pub enum NoFiles {
    /// A directory holds no relay files.
    TraceFiles { dir: String },
    /// No inputs were found.
    Inputs,
}

/// The text of such an error.
pub open spec fn no_files_text(error: NoFiles) -> Seq<char> {
    match error {
        NoFiles::TraceFiles { dir } => "no trace<cpu> files found under "@ + dir@,
        NoFiles::Inputs => "no input trace files found"@,
    }
}

impl NoFiles {
    /// Writes the error out.
    pub fn message(&self) -> (text: String)
        ensures
            text@ == no_files_text(*self),
    {
        match self {
            NoFiles::TraceFiles { dir } => {
                let mut out = "no trace<cpu> files found under ".to_owned();
                out.append(dir.as_str());
                out
            },
            NoFiles::Inputs => "no input trace files found".to_owned(),
        }
    }
}

/// Finds the relay files among the names of files in a directory, of which there
/// must be some.
pub fn require_trace_files(trace_dir: &str, names: &Vec<String>) -> (result: Result<
    Vec<TraceFile>,
    NoFiles,
>)
    ensures
        match result {
            Ok(files) => files@.len() > 0 && relay_files(names@, files@),
            Err(NoFiles::TraceFiles { dir }) => {
                &&& dir@ == trace_dir@
                &&& forall|k: int|
                    0 <= k < names@.len() ==> trace_cpu((#[trigger] names@[k])@) is None
            },
            Err(NoFiles::Inputs) => false,
        },
{
    let files = discover_trace_files(names);
    if files.len() == 0 {
        proof {
            assert(names@.len() == names.len());
            assert forall|k: int| 0 <= k < names@.len() implies trace_cpu(
                (#[trigger] names@[k])@,
            ) is None by {
                assert(names@[(k as usize) as int] == names@[k]);
            }
        }
        return Err(NoFiles::TraceFiles { dir: trace_dir.to_owned() });
    }
    Ok(files)
}

/// Tells in which order inputs are read, of which there must be some.
pub fn require_inputs(files: &Vec<FileName>) -> (result: Result<Vec<usize>, NoFiles>)
    ensures
        match result {
            Ok(order) => {
                &&& files@.len() > 0
                &&& sorting::names_each_once(order@, files@.len())
                &&& in_reading_order(order@, files@)
            },
            Err(err) => files@.len() == 0 && err is Inputs,
        },
{
    if files.len() == 0 {
        return Err(NoFiles::Inputs);
    }
    Ok(expand_input_paths(files))
}

} // verus!
