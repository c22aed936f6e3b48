//! What the kernel's trace files say: where the fields of events stand, how
//! events are numbered, which processors there are, and how many events were
//! lost.

use crate::ftrace_event::{CompleteFormat, SubmitFormat};
use crate::names;
use crate::text::{
    self, chars_of, final_word, next_line, next_part, parse_number, same_text, strip_prefix, trim,
};
use vstd::prelude::*;

verus! {

/// What a line of a format file says of a field.
pub enum LineOffset {
    /// The line is not about the field, or tells no offset.
    Nothing,
    /// The line declares a field without a name.
    Broken,
    /// The line tells the offset of the field; it may not be a number.
    Offset(Option<nat>),
}

/// What stands behind `offset:` in the first of `parts` that starts with it.
pub open spec fn offset_part(parts: Seq<Seq<char>>) -> Option<Seq<char>>
    decreases parts.len(),
{
    if parts.len() == 0 {
        None
    } else {
        let part = text::trimmed(parts[0]);
        if text::starts_with(part, "offset:"@) {
            Some(part.skip("offset:"@.len() as int))
        } else {
            offset_part(parts.drop_first())
        }
    }
}

/// What a line says of the field `name`. A line about a field starts with
/// `field:` and a declaration that a semicolon ends; the last word of the
/// declaration is the name of the field, with the length in brackets behind it
/// where the field is an array.
pub open spec fn line_offset(line: Seq<char>, name: Seq<char>) -> LineOffset {
    let line = text::trimmed(line);
    let declaration = line.take(text::find(line, ';')).skip("field:"@.len() as int);
    if !text::starts_with(line, "field:"@) {
        LineOffset::Nothing
    } else {
        match text::last_word(declaration) {
            None => LineOffset::Broken,
            Some(word) => if word.take(text::find(word, '[')) != name {
                LineOffset::Nothing
            } else {
                match offset_part(text::parts(line, ';')) {
                    Some(value) => LineOffset::Offset(
                        text::number(text::trimmed(value), usize::MAX as nat),
                    ),
                    None => LineOffset::Nothing,
                }
            },
        }
    }
}

/// The offset that the first line about the field `name` tells.
pub open spec fn offset_in(lines: Seq<Seq<char>>, name: Seq<char>) -> Option<nat>
    decreases lines.len(),
{
    if lines.len() == 0 {
        None
    } else {
        match line_offset(lines[0], name) {
            LineOffset::Nothing => offset_in(lines.drop_first(), name),
            LineOffset::Broken => None,
            LineOffset::Offset(value) => value,
        }
    }
}

/// The offset of the field `name` in a format file.
pub open spec fn field_offset(content: Seq<char>, name: Seq<char>) -> Option<nat> {
    offset_in(text::lines(content), name)
}

/// What an optional size is.
pub open spec fn size_as_nat(value: Option<usize>) -> Option<nat> {
    match value {
        Some(v) => Some(v as nat),
        None => None,
    }
}

fn find_offset_part<'a>(line: &'a [char]) -> (value: Option<&'a [char]>)
    ensures
        match value {
            Some(v) => offset_part(text::parts(line@, ';')) == Some(v@),
            None => offset_part(text::parts(line@, ';')) is None,
        },
{
    let mut rest = line;
    loop
        invariant
            offset_part(text::parts(line@, ';')) == offset_part(text::parts(rest@, ';')),
        decreases rest@.len(),
    {
        let (part, more) = next_part(rest, ';');
        let ghost all = text::parts(rest@, ';');
        assert(all[0] == part@);
        if let Some(value) = strip_prefix(trim(part), "offset:") {
            return Some(value);
        }
        match more {
            Some(next) => {
                assert(all.drop_first() =~= text::parts(next@, ';'));
                rest = next;
            },
            None => {
                assert(all.drop_first() =~= seq![]);
                assert(offset_part(all.drop_first()) is None);
                return None;
            },
        }
    }
}

/// What a line says of a field, as the parser holds it.
enum FoundOffset {
    Nothing,
    Broken,
    Offset(Option<usize>),
}

spec fn found_offset(found: FoundOffset) -> LineOffset {
    match found {
        FoundOffset::Nothing => LineOffset::Nothing,
        FoundOffset::Broken => LineOffset::Broken,
        FoundOffset::Offset(value) => LineOffset::Offset(size_as_nat(value)),
    }
}

fn find_line_offset(line: &[char], field_name: &str) -> (found: FoundOffset)
    ensures
        found_offset(found) == line_offset(line@, field_name@),
{
    let line = trim(line);
    proof {
        reveal_strlit("field:");
        text::lemma_find(line@, ';');
    }
    let (declaration, _rest) = next_part(line, ';');
    let declaration = match strip_prefix(declaration, "field:") {
        Some(declaration) => declaration,
        None => {
            proof {
                lemma_prefix_before(line@, "field:"@, ';');
            }
            return FoundOffset::Nothing;
        },
    };
    proof {
        lemma_prefix_before(line@, "field:"@, ';');
    }
    let word = match final_word(declaration) {
        Some(word) => word,
        None => {
            return FoundOffset::Broken;
        },
    };
    let (name, _length) = next_part(word, '[');
    if !same_text(name, field_name) {
        return FoundOffset::Nothing;
    }
    match find_offset_part(line) {
        Some(value) => match parse_number(trim(value), usize::MAX as u64) {
            Some(offset) => FoundOffset::Offset(Some(offset as usize)),
            None => FoundOffset::Offset(None),
        },
        None => FoundOffset::Nothing,
    }
}

/// A text starts with a prefix that lacks `c` exactly where the part before the
/// first `c` does.
proof fn lemma_prefix_before(s: Seq<char>, prefix: Seq<char>, c: char)
    requires
        forall|i: int| 0 <= i < prefix.len() ==> prefix[i] != c,
    ensures
        text::starts_with(s, prefix) <==> text::starts_with(s.take(text::find(s, c)), prefix),
{
    text::lemma_find(s, c);
    let n = text::find(s, c);
    let front = s.take(n);
    if text::starts_with(s, prefix) {
        if n < prefix.len() {
            assert(s.take(prefix.len() as int)[n] == s[n]);
            assert(prefix[n] == c);
        }
        assert(front.take(prefix.len() as int) =~= s.take(prefix.len() as int));
    }
    if text::starts_with(front, prefix) {
        assert(front.take(prefix.len() as int) =~= s.take(prefix.len() as int));
    }
}

/// Finds the offset of a field in a format file.
pub fn format_field_offset(content: &str, field_name: &str) -> (offset: Option<usize>)
    ensures
        size_as_nat(offset) == field_offset(content@, field_name@),
{
    let chars = chars_of(content);
    let mut rest = chars.as_slice();
    while rest.len() > 0
        invariant
            field_offset(content@, field_name@) == offset_in(text::lines(rest@), field_name@),
        decreases rest@.len(),
    {
        let (line, next) = next_line(rest);
        assert(text::lines(rest@).drop_first() =~= text::lines(next@));
        assert(text::lines(rest@)[0] == line@);
        match find_line_offset(line, field_name) {
            FoundOffset::Nothing => {
                rest = next;
            },
            FoundOffset::Broken => {
                return None;
            },
            FoundOffset::Offset(offset) => {
                return offset;
            },
        }
    }
    None
}

/// Why tracing could not be set up.
#[derive(Debug, Clone, PartialEq, Eq)]
pub enum FtraceError {
    /// A format file tells no usable offset of a field.
    MissingField { field: &'static str, event: &'static str },
    /// A file holds no event number.
    BadEventId { path: String },
    /// A directory lists no processors.
    NoCpus { path: String },
}

/// The text of an error.
pub open spec fn ftrace_error_text(error: FtraceError) -> Seq<char> {
    match error {
        FtraceError::MissingField { field, event } => "field '"@ + field@
            + "' not found in format for '"@ + event@ + "'"@,
        FtraceError::BadEventId { path } => "parsing event ID from "@ + path@,
        FtraceError::NoCpus { path } => "no per_cpu/cpuN directories under "@ + path@,
    }
}

impl FtraceError {
    /// Writes the error out.
    pub fn message(&self) -> (text: String)
        ensures
            text@ == ftrace_error_text(*self),
    {
        match self {
            FtraceError::MissingField { field, event } => {
                let mut out = "field '".to_owned();
                out.append(*field);
                out.append("' not found in format for '");
                out.append(*event);
                out.append("'");
                out
            },
            FtraceError::BadEventId { path } => {
                let mut out = "parsing event ID from ".to_owned();
                out.append(path.as_str());
                out
            },
            FtraceError::NoCpus { path } => {
                let mut out = "no per_cpu/cpuN directories under ".to_owned();
                out.append(path.as_str());
                out
            },
        }
    }
}

/// The fields that a submission event must have.
pub open spec fn submit_fields() -> Seq<&'static str> {
    seq![
        "ctrl_id",
        "qid",
        "cid",
        "data_len",
        "meta_len",
        "use_sgl",
        "single_segment",
        "sqe",
        "descriptors",
    ]
}

/// The fields that a completion event must have.
pub open spec fn complete_fields() -> Seq<&'static str> {
    seq!["ctrl_id", "qid", "cid", "result", "sq_head", "sq_id", "status", "retries"]
}

/// A format file tells the offsets of all `fields`.
pub open spec fn tells_all(content: Seq<char>, fields: Seq<&'static str>) -> bool {
    forall|i: int|
        0 <= i < fields.len() ==> field_offset(content, (#[trigger] fields[i])@) is Some
}

/// `field` is the first of `fields` whose offset a format file does not tell.
pub open spec fn first_untold(
    content: Seq<char>,
    fields: Seq<&'static str>,
    field: &'static str,
) -> bool {
    exists|i: int|
        {
            &&& 0 <= i < fields.len()
            &&& #[trigger] fields[i] == field
            &&& field_offset(content, fields[i]@) is None
            &&& tells_all(content, fields.take(i))
        }
}

/// The offset of a field whose offset is told.
pub open spec fn told(content: Seq<char>, field: &'static str) -> usize {
    field_offset(content, field@).unwrap() as usize
}

/// The layout of submission events that a format file tells.
pub open spec fn submit_format(content: Seq<char>) -> SubmitFormat {
    SubmitFormat {
        ctrl_id: told(content, "ctrl_id"),
        qid: told(content, "qid"),
        cid: told(content, "cid"),
        data_len: told(content, "data_len"),
        meta_len: told(content, "meta_len"),
        use_sgl: told(content, "use_sgl"),
        single_segment: told(content, "single_segment"),
        sqe: told(content, "sqe"),
        descriptors_dataloc: told(content, "descriptors"),
    }
}

/// The layout of completion events that a format file tells.
pub open spec fn complete_format(content: Seq<char>) -> CompleteFormat {
    CompleteFormat {
        ctrl_id: told(content, "ctrl_id"),
        qid: told(content, "qid"),
        cid: told(content, "cid"),
        result: told(content, "result"),
        sq_head: told(content, "sq_head"),
        sq_id: told(content, "sq_id"),
        status: told(content, "status"),
        retries: told(content, "retries"),
    }
}

/// Finds the offset of a field that must be there.
pub fn require_offset(content: &str, field: &'static str, event: &'static str) -> (result: Result<
    usize,
    FtraceError,
>)
    ensures
        match result {
            Ok(offset) => field_offset(content@, field@) == Some(offset as nat),
            Err(err) => field_offset(content@, field@) is None && err == (
            FtraceError::MissingField { field, event }),
        },
{
    match format_field_offset(content, field) {
        Some(offset) => Ok(offset),
        None => Err(FtraceError::MissingField { field, event }),
    }
}

/// Finds the offset of the field at place `at`, those before it being told.
fn require_next(
    content: &str,
    field: &'static str,
    event: &'static str,
    Ghost(fields): Ghost<Seq<&'static str>>,
    Ghost(at): Ghost<int>,
) -> (result: Result<usize, FtraceError>)
    requires
        0 <= at < fields.len(),
        fields[at] == field,
        tells_all(content@, fields.take(at)),
    ensures
        match result {
            Ok(offset) => {
                &&& offset == told(content@, field)
                &&& tells_all(content@, fields.take(at + 1))
            },
            Err(err) => {
                &&& err == (FtraceError::MissingField { field, event })
                &&& first_untold(content@, fields, field)
            },
        },
{
    proof {
        assert forall|i: int|
            0 <= i < at + 1 && field_offset(content@, field@) is Some implies field_offset(
            content@,
            (#[trigger] fields.take(at + 1)[i])@,
        ) is Some by {
            if i < at {
                assert(fields.take(at)[i] == fields.take(at + 1)[i]);
            }
        }
    }
    require_offset(content, field, event)
}

/// Reads the layout of submission events from a format file.
pub fn parse_submit_format(content: &str) -> (result: Result<SubmitFormat, FtraceError>)
    ensures
        match result {
            Ok(fmt) => tells_all(content@, submit_fields()) && fmt == submit_format(content@),
            Err(FtraceError::MissingField { field, event }) => first_untold(
                content@,
                submit_fields(),
                field,
            ) && event == "nvme_pci_submit",
            Err(_) => false,
        },
{
    let ghost all = submit_fields();
    let ev = "nvme_pci_submit";
    assert(tells_all(content@, all.take(0)));
    let ctrl_id = require_next(content, "ctrl_id", ev, Ghost(all), Ghost(0))?;
    let qid = require_next(content, "qid", ev, Ghost(all), Ghost(1))?;
    let cid = require_next(content, "cid", ev, Ghost(all), Ghost(2))?;
    let data_len = require_next(content, "data_len", ev, Ghost(all), Ghost(3))?;
    let meta_len = require_next(content, "meta_len", ev, Ghost(all), Ghost(4))?;
    let use_sgl = require_next(content, "use_sgl", ev, Ghost(all), Ghost(5))?;
    let single_segment = require_next(content, "single_segment", ev, Ghost(all), Ghost(6))?;
    let sqe = require_next(content, "sqe", ev, Ghost(all), Ghost(7))?;
    let descriptors_dataloc = require_next(content, "descriptors", ev, Ghost(all), Ghost(8))?;
    assert(all.take(9) =~= all);
    Ok(
        SubmitFormat {
            ctrl_id,
            qid,
            cid,
            data_len,
            meta_len,
            use_sgl,
            single_segment,
            sqe,
            descriptors_dataloc,
        },
    )
}

/// Reads the layout of completion events from a format file.
pub fn parse_complete_format(content: &str) -> (result: Result<CompleteFormat, FtraceError>)
    ensures
        match result {
            Ok(fmt) => tells_all(content@, complete_fields()) && fmt == complete_format(content@),
            Err(FtraceError::MissingField { field, event }) => first_untold(
                content@,
                complete_fields(),
                field,
            ) && event == "nvme_pci_complete",
            Err(_) => false,
        },
{
    let ghost all = complete_fields();
    let ev = "nvme_pci_complete";
    assert(tells_all(content@, all.take(0)));
    let ctrl_id = require_next(content, "ctrl_id", ev, Ghost(all), Ghost(0))?;
    let qid = require_next(content, "qid", ev, Ghost(all), Ghost(1))?;
    let cid = require_next(content, "cid", ev, Ghost(all), Ghost(2))?;
    let result = require_next(content, "result", ev, Ghost(all), Ghost(3))?;
    let sq_head = require_next(content, "sq_head", ev, Ghost(all), Ghost(4))?;
    let sq_id = require_next(content, "sq_id", ev, Ghost(all), Ghost(5))?;
    let status = require_next(content, "status", ev, Ghost(all), Ghost(6))?;
    let retries = require_next(content, "retries", ev, Ghost(all), Ghost(7))?;
    assert(all.take(8) =~= all);
    Ok(CompleteFormat { ctrl_id, qid, cid, result, sq_head, sq_id, status, retries })
}

/// Reads the number of an event.
pub fn parse_event_id(content: &str) -> (id: Option<u16>)
    ensures
        match id {
            Some(id) => text::number(text::trimmed(content@), u16::MAX as nat) == Some(id as nat),
            None => text::number(text::trimmed(content@), u16::MAX as nat) is None,
        },
{
    let chars = chars_of(content);
    match parse_number(trim(chars.as_slice()), u16::MAX as u64) {
        Some(id) => Some(id as u16),
        None => None,
    }
}

/// The processor that a directory stands for: its name is `cpu` and the number
/// of the processor.
pub open spec fn cpu_dir(name: Seq<char>) -> Option<nat> {
    if text::starts_with(name, "cpu"@) {
        text::number(name.skip("cpu"@.len() as int), u32::MAX as nat)
    } else {
        None
    }
}

/// The processors that directories stand for, in the order of the listing.
pub open spec fn listed_cpus(names: Seq<String>) -> Seq<u32>
    decreases names.len(),
{
    if names.len() == 0 {
        seq![]
    } else {
        let front = listed_cpus(names.drop_last());
        match cpu_dir(names.last()@) {
            Some(cpu) => front.push(cpu as u32),
            None => front,
        }
    }
}

/// `cpus` are `listed` from the smallest to the largest.
pub open spec fn ascending(cpus: Seq<u32>, listed: Seq<u32>) -> bool {
    &&& cpus.to_multiset() == listed.to_multiset()
    &&& forall|i: int, j: int|
        #![trigger cpus[i], cpus[j]]
        0 <= i < j < cpus.len() ==> cpus[i] <= cpus[j]
}

fn parse_cpu_dir(name: &str) -> (cpu: Option<u32>)
    ensures
        names::as_nat(cpu) == cpu_dir(name@),
{
    let chars = chars_of(name);
    match strip_prefix(chars.as_slice(), "cpu") {
        Some(suffix) => match parse_number(suffix, u32::MAX as u64) {
            Some(value) => Some(value as u32),
            None => None,
        },
        None => None,
    }
}

fn insert_ascending(cpus: &mut Vec<u32>, cpu: u32)
    requires
        ascending(old(cpus)@, old(cpus)@),
    ensures
        ascending(final(cpus)@, old(cpus)@.push(cpu)),
{
    let mut at: usize = cpus.len();
    while at > 0 && cpus[at - 1] > cpu
        invariant
            at <= cpus@.len(),
            forall|i: int| at <= i < cpus@.len() ==> cpu < #[trigger] cpus@[i],
        decreases at,
    {
        at = at - 1;
    }
    let ghost before = cpus@;
    cpus.insert(at, cpu);
    proof {
        broadcast use vstd::seq_lib::group_to_multiset_ensures;

        let after = cpus@;
        assert(after =~= before.insert(at as int, cpu));
        assert(after.remove(at as int) =~= before);
        assert(after[at as int] == cpu);
        assert(after.contains(cpu));
        assert(after.to_multiset() =~= before.to_multiset().insert(cpu));
        assert forall|i: int, j: int|
            #![trigger after[i], after[j]]
            0 <= i < j < after.len() implies after[i] <= after[j] by {
            if at > 0 && i < at {
                assert(before[i] <= before[at - 1]);
            }
        }
    }
}

/// Finds the processors in the listing of a directory.
pub fn discover_cpus(tracing_dir: &str, names: &Vec<String>) -> (result: Result<
    Vec<u32>,
    FtraceError,
>)
    ensures
        match result {
            Ok(cpus) => cpus@.len() > 0 && ascending(cpus@, listed_cpus(names@)),
            Err(FtraceError::NoCpus { path }) => {
                &&& listed_cpus(names@).len() == 0
                &&& path@ == names::below(tracing_dir@, "per_cpu"@)
            },
            Err(_) => false,
        },
{
    let mut cpus: Vec<u32> = Vec::new();
    let mut i: usize = 0;
    while i < names.len()
        invariant
            i <= names@.len(),
            ascending(cpus@, listed_cpus(names@.take(i as int))),
        decreases names@.len() - i,
    {
        let ghost before = cpus@;
        let ghost listed = listed_cpus(names@.take(i as int));
        assert(names@.take(i + 1).drop_last() =~= names@.take(i as int));
        if let Some(cpu) = parse_cpu_dir(names[i].as_str()) {
            insert_ascending(&mut cpus, cpu);
            proof {
                broadcast use vstd::seq_lib::group_to_multiset_ensures;

                assert(before.push(cpu).to_multiset() == listed.push(cpu).to_multiset());
            }
        }
        i = i + 1;
    }
    proof {
        assert(names@.take(names@.len() as int) =~= names@);
        cpus@.to_multiset_ensures();
        listed_cpus(names@).to_multiset_ensures();
    }
    if cpus.len() == 0 {
        return Err(FtraceError::NoCpus { path: names::join_path(tracing_dir, "per_cpu") });
    }
    Ok(cpus)
}

/// The number of lost events that a line of a statistics file tells.
pub open spec fn line_overrun(line: Seq<char>) -> nat {
    if text::starts_with(line, "overrun:"@) {
        match text::number(text::trimmed(line.skip("overrun:"@.len() as int)), u64::MAX as nat) {
            Some(n) => n,
            None => 0,
        }
    } else {
        0
    }
}

/// The number of lost events that lines tell.
pub open spec fn lines_overrun(lines: Seq<Seq<char>>) -> nat
    decreases lines.len(),
{
    if lines.len() == 0 {
        0
    } else {
        line_overrun(lines[0]) + lines_overrun(lines.drop_first())
    }
}

/// The number of lost events that statistics files tell.
pub open spec fn total_overrun(contents: Seq<String>) -> nat
    decreases contents.len(),
{
    if contents.len() == 0 {
        0
    } else {
        total_overrun(contents.drop_last()) + lines_overrun(text::lines(contents.last()@))
    }
}

fn parse_line_overrun(line: &[char]) -> (overrun: u64)
    ensures
        overrun == line_overrun(line@),
{
    match strip_prefix(line, "overrun:") {
        Some(value) => match parse_number(trim(value), u64::MAX) {
            Some(n) => n,
            None => 0,
        },
        None => 0,
    }
}

proof fn lemma_total_overrun_grows(contents: Seq<String>, n: int)
    requires
        0 <= n <= contents.len(),
    ensures
        total_overrun(contents.take(n)) <= total_overrun(contents),
    decreases contents.len(),
{
    if n < contents.len() {
        lemma_total_overrun_grows(contents.drop_last(), n);
        assert(contents.drop_last().take(n) =~= contents.take(n));
    } else {
        assert(contents.take(n) =~= contents);
    }
}

/// Adds up the lost events that statistics files tell. Gives nothing where the
/// sum does not fit.
pub fn sum_overruns(contents: &Vec<String>) -> (total: Option<u64>)
    ensures
        match total {
            Some(total) => total == total_overrun(contents@),
            None => total_overrun(contents@) > u64::MAX,
        },
{
    let mut total: u64 = 0;
    let mut i: usize = 0;
    while i < contents.len()
        invariant
            i <= contents@.len(),
            total == total_overrun(contents@.take(i as int)),
        decreases contents@.len() - i,
    {
        assert(contents@.take(i + 1).drop_last() =~= contents@.take(i as int));
        proof {
            lemma_total_overrun_grows(contents@, i + 1);
        }
        let chars = chars_of(contents[i].as_str());
        let mut rest = chars.as_slice();
        while rest.len() > 0
            invariant
                total + lines_overrun(text::lines(rest@)) == total_overrun(
                    contents@.take(i + 1),
                ),
                total_overrun(contents@.take(i + 1)) <= total_overrun(contents@),
            decreases rest@.len(),
        {
            let (line, next) = next_line(rest);
            assert(text::lines(rest@).drop_first() =~= text::lines(next@));
            assert(text::lines(rest@)[0] == line@);
            match total.checked_add(parse_line_overrun(line)) {
                Some(sum) => {
                    total = sum;
                },
                None => {
                    return None;
                },
            }
            rest = next;
        }
        i = i + 1;
    }
    assert(contents@.take(contents@.len() as int) =~= contents@);
    Some(total)
}

} // verus!
