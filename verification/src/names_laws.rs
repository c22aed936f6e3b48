//! What the names of files say.

use crate::names::{self, FileName, TraceFile};
use crate::order;
use crate::sorting::{self, InputKey, SortKey};
use crate::text;
use crate::text_laws;
use vstd::prelude::*;

verus! {

/// Digits that write the number of a processor.
pub open spec fn writes_cpu(digits: Seq<char>, cpu: nat) -> bool {
    &&& digits.len() > 0
    &&& text_laws::is_decimal(digits)
    &&& text::digits_value(digits) == cpu
    &&& cpu <= u32::MAX
}

/// A relay file belongs to a processor exactly where its name is `trace` and then
/// digits that write the number of the processor.
pub proof fn relay_files_are_named_by_processor(name: Seq<char>, digits: Seq<char>, cpu: nat)
    ensures
        writes_cpu(digits, cpu) ==> names::trace_cpu("trace"@ + digits) == Some(cpu),
        names::trace_cpu(name) == Some(cpu) ==> name.len() > 5 && name.take(5) == "trace"@
            && writes_cpu(name.skip(5), cpu),
        cpu <= u32::MAX ==> names::trace_cpu("trace"@ + text::decimal(cpu)) == Some(cpu),
{
    reveal_strlit("trace");
    text_laws::decimal_reads_back(cpu);
    assert(("trace"@ + digits).take(5) =~= "trace"@);
    assert(("trace"@ + digits).skip(5) =~= digits);
    assert(("trace"@ + text::decimal(cpu)).take(5) =~= "trace"@);
    assert(("trace"@ + text::decimal(cpu)).skip(5) =~= text::decimal(cpu));
}

/// A captured file belongs to a processor exactly where its name is `cpu`, then
/// digits that write the number of the processor, then `.bin`.
pub proof fn captured_files_are_named_by_processor(name: Seq<char>, digits: Seq<char>, cpu: nat)
    ensures
        writes_cpu(digits, cpu) ==> names::cpu_bin("cpu"@ + digits + ".bin"@) == Some(cpu),
        names::cpu_bin(name) == Some(cpu) ==> name.len() > 7 && name.take(3) == "cpu"@
            && name.skip(name.len() - 4) == ".bin"@ && writes_cpu(
            name.subrange(3, name.len() - 4),
            cpu,
        ),
        cpu <= u32::MAX ==> names::cpu_bin("cpu"@ + text::decimal(cpu) + ".bin"@) == Some(cpu),
{
    reveal_strlit("cpu");
    reveal_strlit(".bin");
    text_laws::decimal_reads_back(cpu);
    lemma_cpu_bin(digits);
    lemma_cpu_bin(text::decimal(cpu));
    if names::cpu_bin(name) is Some {
        let rest = name.skip(3);
        assert(rest.skip(rest.len() - 4) =~= name.skip(name.len() - 4));
        assert(rest.take(rest.len() - 4) =~= name.subrange(3, name.len() - 4));
    }
}

proof fn lemma_cpu_bin(digits: Seq<char>)
    ensures
        names::cpu_bin("cpu"@ + digits + ".bin"@) == names::cpu_number(digits),
{
    reveal_strlit("cpu");
    reveal_strlit(".bin");
    let name = "cpu"@ + digits + ".bin"@;
    let rest = name.skip(3);
    assert(name.take(3) =~= "cpu"@);
    assert(rest =~= digits + ".bin"@);
    assert(rest.skip(rest.len() - 4) =~= ".bin"@);
    assert(rest.take(rest.len() - 4) =~= digits);
}

/// A file below a directory: the path begins with the directory, its last part is
/// the name of the file, and one separator stands between the two. Where there is
/// a separator already, or no directory, none is added.
pub proof fn names_stand_below_their_directory(dir: Seq<char>, name: Seq<char>)
    requires
        text_laws::lacks(name, '/'),
    ensures
        ({
            let path = names::below(dir, name);
            &&& dir.is_prefix_of(path)
            &&& text::parts(path, '/').last() == name
            &&& dir.len() > 0 && dir.last() != '/' ==> text::parts(path, '/') == text::parts(
                dir,
                '/',
            ).push(name)
            &&& dir.len() > 0 && dir.last() == '/' ==> text::parts(path, '/') == text::parts(
                dir.drop_last(),
                '/',
            ).push(name)
            &&& dir.len() == 0 ==> path == name
        }),
{
    let path = names::below(dir, name);
    reveal_strlit("/");
    if dir.len() == 0 {
        assert(path =~= name);
        text_laws::lemma_parts_cons(name, name, '/');
    } else if dir.last() == '/' {
        let front = dir.drop_last();
        assert(path =~= front.push('/') + name);
        text_laws::lemma_parts_snoc(front, name, '/');
    } else {
        assert(path =~= dir.push('/') + name);
        text_laws::lemma_parts_snoc(dir, name, '/');
    }
    assert(dir.is_prefix_of(path)) by {
        assert(path.take(dir.len() as int) =~= dir);
    }
}

/// The file that the data of a processor is captured to belongs to that processor
/// when it is read.
pub proof fn captured_data_is_found_again(out_dir: Seq<char>, cpu: u32)
    ensures
        names::cpu_bin(text::parts(names::capture_file(out_dir, cpu), '/').last()) == Some(
            cpu as nat,
        ),
        out_dir.is_prefix_of(names::capture_file(out_dir, cpu)),
{
    let digits = text::decimal(cpu as nat);
    let name = "cpu"@ + digits + ".bin"@;
    reveal_strlit("cpu");
    reveal_strlit(".bin");
    text_laws::decimal_reads_back(cpu as nat);
    assert(text_laws::lacks(name, '/')) by {
        assert forall|i: int| 0 <= i < name.len() implies #[trigger] name[i] != '/' by {
            if 3 <= i < 3 + digits.len() {
                assert(name[i] == digits[i - 3]);
                assert(text::is_digit(digits[i - 3]));
            }
        }
    }
    names_stand_below_their_directory(out_dir, name);
    captured_files_are_named_by_processor(name, digits, cpu as nat);
}

/// Files are read by processor: those whose names tell none first, then from the
/// smallest number to the largest, whatever the texts of the names are. Files of
/// one processor are read by path, and files of one path as they stand.
pub proof fn files_are_read_by_processor(
    order: Seq<usize>,
    files: Seq<FileName>,
    i: int,
    j: int,
)
    requires
        names::in_reading_order(order, files),
        0 <= i < j < order.len(),
        order[i] < files.len(),
        order[j] < files.len(),
    ensures
        ({
            let (a, b) = (files[order[i] as int], files[order[j] as int]);
            let by_path = !order::text_less(b.path@, a.path@) && (a.path@ == b.path@ ==> order[i]
                < order[j]);
            match (names::cpu_bin(a.name@), names::cpu_bin(b.name@)) {
                (None, None) => by_path,
                (None, Some(_)) => true,
                (Some(_), None) => false,
                (Some(x), Some(y)) => x < y || x == y && by_path,
            }
        }),
{
    let keys = choose|keys: Seq<InputKey>|
        {
            &&& keys.len() == files.len()
            &&& forall|k: int|
                0 <= k < files.len() ==> names::sorted_by(files[k], #[trigger] keys[k])
            &&& #[trigger] sorting::sorts(order, keys)
        };
    let (x, y) = (order[i] as int, order[j] as int);
    let (p, q) = (keys[x], keys[y]);
    assert(names::sorted_by(files[x], p));
    assert(names::sorted_by(files[y], q));
    assert(!q.key_less(&p));
    assert(p.key_less(&q) || order[i] < order[j]);
    order::text_order_is_total(p.path@, q.path@);
}

/// The relay files of a listing are found by processor, from the smallest number
/// to the largest, and those of one processor as they are listed. Each file that
/// belongs to a processor is found, once, with its processor, and no other.
pub proof fn relay_files_come_by_processor(names: Seq<String>, files: Seq<TraceFile>)
    requires
        names::relay_files(names, files),
        names.len() <= usize::MAX,
    ensures
        forall|a: int, b: int|
            #![trigger files[a], files[b]]
            0 <= a < b < files.len() ==> files[a].cpu <= files[b].cpu && files[a].index
                != files[b].index && (files[a].cpu == files[b].cpu ==> files[a].index
                < files[b].index),
        forall|a: int|
            0 <= a < files.len() ==> (#[trigger] files[a]).index < names.len() && names::trace_cpu(
                names[files[a].index as int]@,
            ) == Some(files[a].cpu as nat),
        forall|k: int|
            0 <= k < names.len() && names::trace_cpu((#[trigger] names[k])@) is Some ==> exists|
                a: int,
            |
                0 <= a < files.len() && (#[trigger] files[a]).index == k,
{
    assert forall|a: int, b: int|
        #![trigger files[a], files[b]]
        0 <= a < b < files.len() implies files[a].cpu <= files[b].cpu && files[a].index
        != files[b].index && (files[a].cpu == files[b].cpu ==> files[a].index
        < files[b].index) by {
        assert(names::trace_cpu(names[files[a].index as int]@) == Some(files[a].cpu as nat));
        assert(names::trace_cpu(names[files[b].index as int]@) == Some(files[b].cpu as nat));
    }
    assert forall|k: int|
        0 <= k < names.len() && names::trace_cpu((#[trigger] names[k])@) is Some implies exists|
        a: int,
    |
        0 <= a < files.len() && (#[trigger] files[a]).index == k by {
        assert(names[(k as usize) as int] == names[k]);
    }
}

} // verus!
