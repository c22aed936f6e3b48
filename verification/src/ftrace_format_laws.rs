//! What the files of the kernel's tracer say, told by how they are written.

use crate::ftrace_event::{CompleteFormat, SubmitFormat};
use crate::ftrace_format::{self, LineOffset};
use crate::text;
use crate::text_laws;
use vstd::prelude::*;

verus! {

/// A line of a format file: white space, `field:`, the type of a field, a space,
/// its name, its length in brackets where it is an array, a semicolon, white
/// space, `offset:` and a number, a semicolon, and what else there is. White space
/// may stand before the number.
#[verifier::ext_equal]
pub struct FieldLine {
    pub indent: Seq<char>,
    pub kind: Seq<char>,
    pub space: char,
    pub name: Seq<char>,
    pub array: Seq<char>,
    pub gap: Seq<char>,
    pub pad: Seq<char>,
    pub offset: nat,
    pub rest: Seq<char>,
}

/// A line that the kernel can write.
pub open spec fn writable(line: FieldLine) -> bool {
    &&& text_laws::blank(line.indent)
    &&& text_laws::lacks(line.kind, ';')
    &&& text::is_space(line.space)
    &&& line.name.len() > 0
    &&& text_laws::solid(line.name)
    &&& text_laws::lacks(line.name, ';')
    &&& text_laws::lacks(line.name, '[')
    &&& text_laws::solid(line.array)
    &&& text_laws::lacks(line.array, ';')
    &&& line.array.len() == 0 || line.array[0] == '['
    &&& text_laws::blank(line.gap)
    &&& text_laws::blank(line.pad)
    &&& line.offset <= usize::MAX
    &&& line.rest.len() == 0 || !text::is_space(line.rest.last())
}

/// The text of a line.
pub open spec fn line_text(line: FieldLine) -> Seq<char> {
    line.indent + ("field:"@ + line.kind.push(line.space) + (line.name + line.array)
        + seq![';'] + (line.gap + ("offset:"@ + (line.pad + text::decimal(line.offset))) + seq![';']
        + line.rest))
}

proof fn lemma_offset_part(line: FieldLine)
    requires
        writable(line),
    ensures
        ({
            let declaration = "field:"@ + line.kind.push(line.space) + (line.name
                + line.array);
            let told = line.gap + ("offset:"@ + (line.pad + text::decimal(line.offset)));
            let all = text::parts(
                declaration + seq![';'] + (told + seq![';'] + line.rest),
                ';',
            );
            &&& text_laws::lacks(declaration, ';')
            &&& ftrace_format::offset_part(all) == Some(line.pad + text::decimal(line.offset))
        }),
{
    let digits = text::decimal(line.offset);
    let word = line.name + line.array;
    let declaration = "field:"@ + line.kind.push(line.space) + word;
    let value = line.pad + digits;
    let key = "offset:"@ + value;
    let told = line.gap + key;
    let all = text::parts(declaration + seq![';'] + (told + seq![';'] + line.rest), ';');
    reveal_strlit("field:");
    reveal_strlit("offset:");
    text_laws::decimal_reads_back(line.offset);
    text_laws::decimal_is_solid(line.offset);
    text_laws::lemma_digits_lack(digits, ';');
    assert(!text::is_space(';'));
    assert forall|i: int| 0 <= i < declaration.len() implies #[trigger] declaration[i] != ';' by {
        let n = line.kind.len();
        if i < 6 {
        } else if i < 6 + n {
            assert(declaration[i] == line.kind[i - 6]);
        } else if i == 6 + n {
            assert(declaration[i] == line.space);
        } else if i < 7 + n + line.name.len() {
            assert(declaration[i] == line.name[i - 7 - n]);
        } else {
            assert(declaration[i] == line.array[i - 7 - n - line.name.len()]);
        }
    }
    assert forall|i: int| 0 <= i < told.len() implies #[trigger] told[i] != ';' by {
        let n = line.gap.len();
        if i < n {
            assert(text::is_space(line.gap[i]));
        } else if i < n + 7 {
            assert(told[i] == "offset:"@[i - n]);
        } else {
            assert(told[i] == value[i - n - 7]);
            if i < n + 7 + line.pad.len() {
                assert(value[i - n - 7] == line.pad[i - n - 7]);
                assert(text::is_space(line.pad[i - n - 7]));
            } else {
                assert(value[i - n - 7] == digits[i - n - 7 - line.pad.len()]);
            }
        }
    }
    text_laws::lemma_parts_cons(declaration, told + seq![';'] + line.rest, ';');
    text_laws::lemma_parts_cons(told, line.rest, ';');
    let others = text::parts(told + seq![';'] + line.rest, ';');
    assert(all[0] == declaration);
    assert(all.drop_first() =~= others);
    assert(others[0] == told);
    assert(!text::starts_with(text::trimmed(declaration), "offset:"@)) by {
        let none = Seq::<char>::empty();
        assert(none + declaration =~= declaration);
        assert(declaration[0] == 'f');
        text_laws::lemma_trim_start(none, declaration);
        let t = text::trimmed(declaration);
        lemma_trim_end_keeps_front(declaration);
        if text::starts_with(t, "offset:"@) {
            assert(t[0] == t.take(7)[0]);
            assert(t[0] == 'o');
        }
    }
    assert(text::trimmed(told) == key) by {
        let none = Seq::<char>::empty();
        assert(line.gap + key + none =~= told);
        assert(key.last() == digits.last());
        text_laws::trimmed_text_is_what_space_surrounds(line.gap, key, none);
    }
    reveal_with_fuel(ftrace_format::offset_part, 3);
    assert(key.take(7) =~= "offset:"@);
    assert(key.skip(7) =~= value);
}

proof fn lemma_trim_end_keeps_front(s: Seq<char>)
    requires
        s.len() > 0,
        !text::is_space(s[0]),
    ensures
        text::trim_end(s).len() > 0,
        text::trim_end(s)[0] == s[0],
    decreases s.len(),
{
    if text::is_space(s.last()) {
        assert(s.len() > 1);
        lemma_trim_end_keeps_front(s.drop_last());
    }
}

/// A line of a format file tells the offset of the field that it declares, and
/// nothing of any other field.
#[verifier::rlimit(50)]
#[verifier::spinoff_prover]
pub proof fn lines_tell_the_offsets_of_their_fields(line: FieldLine, name: Seq<char>)
    requires
        writable(line),
    ensures
        ftrace_format::line_offset(line_text(line), line.name) == LineOffset::Offset(
            Some(line.offset),
        ),
        name != line.name ==> ftrace_format::line_offset(line_text(line), name)
            == LineOffset::Nothing,
{
    let word = line.name + line.array;
    let declaration = "field:"@ + line.kind.push(line.space) + word;
    let told = line.gap + ("offset:"@ + (line.pad + text::decimal(line.offset)));
    let behind = told + seq![';'] + line.rest;
    let body = declaration + seq![';'] + behind;
    let none = Seq::<char>::empty();
    reveal_strlit("field:");
    lemma_offset_part(line);
    text_laws::decimal_reads_back(line.offset);
    text_laws::decimal_is_solid(line.offset);
    text_laws::trimmed_text_is_what_space_surrounds(line.pad, text::decimal(line.offset), none);
    assert(line.pad + text::decimal(line.offset) + none =~= line.pad + text::decimal(line.offset));
    assert(line_text(line) =~= line.indent + body + none);
    assert(body[0] == 'f');
    assert(!text::is_space(body.last())) by {
        if line.rest.len() > 0 {
            assert(body.last() == line.rest.last());
        } else {
            assert(body.last() == ';');
        }
    }
    text_laws::trimmed_text_is_what_space_surrounds(line.indent, body, none);
    assert(text::trimmed(line_text(line)) == body);
    assert(body.take(6) =~= "field:"@);
    text_laws::lemma_find_behind(declaration, behind, ';');
    assert(body.take(declaration.len() as int) =~= declaration);
    assert(declaration.skip(6) =~= line.kind.push(line.space) + word);
    assert(text_laws::solid(word)) by {
        assert forall|i: int| 0 <= i < word.len() implies !text::is_space(#[trigger] word[i]) by {
            if i < line.name.len() {
                assert(word[i] == line.name[i]);
            } else {
                assert(word[i] == line.array[i - line.name.len()]);
            }
        }
    }
    text_laws::last_word_stands_behind_the_last_space(line.kind, line.space, word);
    assert(word.take(text::find(word, '[')) =~= line.name) by {
        if line.array.len() == 0 {
            assert(word =~= line.name);
            text::lemma_find(word, '[');
        } else {
            let inner = line.array.drop_first();
            assert(word =~= line.name + seq!['['] + inner);
            text_laws::lemma_find_behind(line.name, inner, '[');
        }
    }
}

/// A line that does not begin with `field:` tells nothing.
pub proof fn other_lines_tell_nothing(line: Seq<char>, name: Seq<char>)
    requires
        text::trimmed(line).len() < 6 || text::trimmed(line).take(6) != "field:"@,
    ensures
        ftrace_format::line_offset(line, name) == LineOffset::Nothing,
{
    reveal_strlit("field:");
}

/// The first line that declares a field tells its offset: lines that tell nothing
/// of the field stand before it, and what follows has no say.
pub proof fn first_declaration_tells_the_offset(
    before: Seq<Seq<char>>,
    line: FieldLine,
    after: Seq<Seq<char>>,
)
    requires
        writable(line),
        forall|i: int|
            0 <= i < before.len() ==> ftrace_format::line_offset(
                #[trigger] before[i],
                line.name,
            ) == LineOffset::Nothing,
    ensures
        ftrace_format::offset_in(before + seq![line_text(line)] + after, line.name) == Some(
            line.offset,
        ),
    decreases before.len(),
{
    let all = before + seq![line_text(line)] + after;
    if before.len() == 0 {
        lines_tell_the_offsets_of_their_fields(line, line.name);
        assert(all[0] == line_text(line));
    } else {
        let rest = before.drop_first();
        assert forall|i: int| 0 <= i < rest.len() implies ftrace_format::line_offset(
            #[trigger] rest[i],
            line.name,
        ) == LineOffset::Nothing by {
            assert(rest[i] == before[i + 1]);
        }
        first_declaration_tells_the_offset(rest, line, after);
        assert(all[0] == before[0]);
        assert(all.drop_first() =~= rest + seq![line_text(line)] + after);
    }
}

/// Lines that tell nothing of a field tell no offset of it.
pub proof fn undeclared_fields_have_no_offset(lines: Seq<Seq<char>>, name: Seq<char>)
    requires
        forall|i: int|
            0 <= i < lines.len() ==> ftrace_format::line_offset(#[trigger] lines[i], name)
                == LineOffset::Nothing,
    ensures
        ftrace_format::offset_in(lines, name) is None,
    decreases lines.len(),
{
    if lines.len() > 0 {
        let rest = lines.drop_first();
        assert forall|i: int| 0 <= i < rest.len() implies ftrace_format::line_offset(
            #[trigger] rest[i],
            name,
        ) == LineOffset::Nothing by {
            assert(rest[i] == lines[i + 1]);
        }
        undeclared_fields_have_no_offset(rest, name);
    }
}

/// Each place of the layout of submissions is the offset of the field of its
/// name. All nine fields are needed, and only they.
pub proof fn submission_layout_is_what_the_file_tells(content: Seq<char>, fmt: SubmitFormat)
    requires
        ftrace_format::field_offset(content, "ctrl_id"@) == Some(fmt.ctrl_id as nat),
        ftrace_format::field_offset(content, "qid"@) == Some(fmt.qid as nat),
        ftrace_format::field_offset(content, "cid"@) == Some(fmt.cid as nat),
        ftrace_format::field_offset(content, "data_len"@) == Some(fmt.data_len as nat),
        ftrace_format::field_offset(content, "meta_len"@) == Some(fmt.meta_len as nat),
        ftrace_format::field_offset(content, "use_sgl"@) == Some(fmt.use_sgl as nat),
        ftrace_format::field_offset(content, "single_segment"@) == Some(fmt.single_segment as nat),
        ftrace_format::field_offset(content, "sqe"@) == Some(fmt.sqe as nat),
        ftrace_format::field_offset(content, "descriptors"@) == Some(
            fmt.descriptors_dataloc as nat,
        ),
    ensures
        ftrace_format::tells_all(content, ftrace_format::submit_fields()),
        ftrace_format::submit_format(content) == fmt,
        forall|field: &'static str| !ftrace_format::first_untold(
            content,
            ftrace_format::submit_fields(),
            field,
        ),
{
    let fields = ftrace_format::submit_fields();
    assert(fields.len() == 9);
    assert forall|i: int| 0 <= i < fields.len() implies ftrace_format::field_offset(
        content,
        (#[trigger] fields[i])@,
    ) is Some by {
        if i == 0 {
        } else if i == 1 {
        } else if i == 2 {
        } else if i == 3 {
        } else if i == 4 {
        } else if i == 5 {
        } else if i == 6 {
        } else if i == 7 {
        } else {
            assert(i == 8);
        }
    }
}

/// Each place of the layout of completions is the offset of the field of its
/// name. All eight fields are needed, and only they.
pub proof fn completion_layout_is_what_the_file_tells(content: Seq<char>, fmt: CompleteFormat)
    requires
        ftrace_format::field_offset(content, "ctrl_id"@) == Some(fmt.ctrl_id as nat),
        ftrace_format::field_offset(content, "qid"@) == Some(fmt.qid as nat),
        ftrace_format::field_offset(content, "cid"@) == Some(fmt.cid as nat),
        ftrace_format::field_offset(content, "result"@) == Some(fmt.result as nat),
        ftrace_format::field_offset(content, "sq_head"@) == Some(fmt.sq_head as nat),
        ftrace_format::field_offset(content, "sq_id"@) == Some(fmt.sq_id as nat),
        ftrace_format::field_offset(content, "status"@) == Some(fmt.status as nat),
        ftrace_format::field_offset(content, "retries"@) == Some(fmt.retries as nat),
    ensures
        ftrace_format::tells_all(content, ftrace_format::complete_fields()),
        ftrace_format::complete_format(content) == fmt,
        forall|field: &'static str| !ftrace_format::first_untold(
            content,
            ftrace_format::complete_fields(),
            field,
        ),
{
    let fields = ftrace_format::complete_fields();
    assert(fields.len() == 8);
    assert forall|i: int| 0 <= i < fields.len() implies ftrace_format::field_offset(
        content,
        (#[trigger] fields[i])@,
    ) is Some by {
        if i == 0 {
        } else if i == 1 {
        } else if i == 2 {
        } else if i == 3 {
        } else if i == 4 {
        } else if i == 5 {
        } else if i == 6 {
        } else {
            assert(i == 7);
        }
    }
}

/// A directory stands for a processor where its name is `cpu` and the number of
/// the processor, and for none where it does not begin with `cpu` or has nothing
/// behind it.
pub proof fn directories_are_named_by_processor(name: Seq<char>, cpu: nat)
    ensures
        ftrace_format::cpu_dir("cpu"@ + name) == text::number(name, u32::MAX as nat),
        cpu <= u32::MAX ==> ftrace_format::cpu_dir("cpu"@ + text::decimal(cpu)) == Some(cpu),
        cpu > u32::MAX ==> ftrace_format::cpu_dir("cpu"@ + text::decimal(cpu)) is None,
        ftrace_format::cpu_dir(name) is Some ==> name.len() > 3 && name.take(3) == "cpu"@,
{
    reveal_strlit("cpu");
    text_laws::decimal_reads_back(cpu);
    let digits = text::decimal(cpu);
    assert(("cpu"@ + name).take(3) =~= "cpu"@);
    assert(("cpu"@ + name).skip(3) =~= name);
    assert(("cpu"@ + digits).take(3) =~= "cpu"@);
    assert(("cpu"@ + digits).skip(3) =~= digits);
    assert(text::is_digit(digits[0]));
}

/// A processor is listed exactly where a directory stands for it.
pub proof fn listed_processors_have_directories(names: Seq<String>, cpu: u32)
    ensures
        ftrace_format::listed_cpus(names).contains(cpu) <==> exists|i: int|
            0 <= i < names.len() && ftrace_format::cpu_dir((#[trigger] names[i])@) == Some(
                cpu as nat,
            ),
    decreases names.len(),
{
    if names.len() > 0 {
        let front = names.drop_last();
        let n = names.len() - 1;
        let before = ftrace_format::listed_cpus(front);
        let all = ftrace_format::listed_cpus(names);
        listed_processors_have_directories(front, cpu);
        if let Some(found) = ftrace_format::cpu_dir(names[n]@) {
            assert(all == before.push(found as u32));
            assert(found <= u32::MAX);
            if before.contains(cpu) {
                let k = choose|k: int| 0 <= k < before.len() && before[k] == cpu;
                assert(all[k] == cpu);
            }
            if found == cpu {
                assert(all[before.len() as int] == cpu);
            }
            if all.contains(cpu) {
                let k = choose|k: int| 0 <= k < all.len() && all[k] == cpu;
                if k < before.len() {
                    assert(before[k] == cpu);
                } else {
                    assert(found == cpu);
                }
            }
        }
        if before.contains(cpu) {
            let i = choose|i: int|
                0 <= i < front.len() && ftrace_format::cpu_dir((#[trigger] front[i])@) == Some(
                    cpu as nat,
                );
            assert(names[i] == front[i]);
        }
        if exists|i: int|
            0 <= i < names.len() && ftrace_format::cpu_dir((#[trigger] names[i])@) == Some(
                cpu as nat,
            ) {
            let i = choose|i: int|
                0 <= i < names.len() && ftrace_format::cpu_dir((#[trigger] names[i])@) == Some(
                    cpu as nat,
                );
            if i < n {
                assert(front[i] == names[i]);
            }
        }
    }
}

/// A line that begins with `overrun:` tells the number behind it, with white space
/// around it; other lines tell none.
pub proof fn overrun_lines_tell_their_number(
    line: Seq<char>,
    gap: Seq<char>,
    lost: nat,
    end: Seq<char>,
)
    requires
        text_laws::blank(gap),
        text_laws::blank(end),
        lost <= u64::MAX,
    ensures
        ftrace_format::line_overrun("overrun:"@ + (gap + text::decimal(lost) + end)) == lost,
        line.len() < 8 || line.take(8) != "overrun:"@ ==> ftrace_format::line_overrun(line) == 0,
{
    reveal_strlit("overrun:");
    let told = gap + text::decimal(lost) + end;
    text_laws::decimal_reads_back(lost);
    text_laws::decimal_is_solid(lost);
    text_laws::trimmed_text_is_what_space_surrounds(gap, text::decimal(lost), end);
    assert(("overrun:"@ + told).take(8) =~= "overrun:"@);
    assert(("overrun:"@ + told).skip(8) =~= told);
}

/// The lost events of all lines of all files add up.
pub proof fn overruns_add_up(a: Seq<Seq<char>>, b: Seq<Seq<char>>, files: Seq<String>, more: String)
    ensures
        ftrace_format::lines_overrun(a + b) == ftrace_format::lines_overrun(a)
            + ftrace_format::lines_overrun(b),
        a.len() == 1 ==> ftrace_format::lines_overrun(a) == ftrace_format::line_overrun(a[0]),
        ftrace_format::total_overrun(files.push(more)) == ftrace_format::total_overrun(files)
            + ftrace_format::lines_overrun(text::lines(more@)),
        ftrace_format::total_overrun(seq![]) == 0,
    decreases a.len(),
{
    assert(files.push(more).drop_last() =~= files);
    if a.len() == 0 {
        assert(a + b =~= b);
    } else {
        let rest = a.drop_first();
        overruns_add_up(rest, b, files, more);
        assert((a + b).drop_first() =~= rest + b);
        assert((a + b)[0] == a[0]);
    }
}

/// A field is not told.
pub open spec fn untold(content: Seq<char>, name: Seq<char>) -> bool {
    ftrace_format::field_offset(content, name) is None
}

/// The field that an error about submissions names is the first that is missing,
/// in a fixed order.
pub proof fn first_missing_submission_field_is_named(content: Seq<char>, field: &'static str)
    requires
        ftrace_format::first_untold(content, ftrace_format::submit_fields(), field),
    ensures
        field == if untold(content, "ctrl_id"@) {
            "ctrl_id"
        } else if untold(content, "qid"@) {
            "qid"
        } else if untold(content, "cid"@) {
            "cid"
        } else if untold(content, "data_len"@) {
            "data_len"
        } else if untold(content, "meta_len"@) {
            "meta_len"
        } else if untold(content, "use_sgl"@) {
            "use_sgl"
        } else if untold(content, "single_segment"@) {
            "single_segment"
        } else if untold(content, "sqe"@) {
            "sqe"
        } else {
            "descriptors"
        },
{
    let fields = ftrace_format::submit_fields();
    let i = choose|i: int|
        {
            &&& 0 <= i < fields.len()
            &&& #[trigger] fields[i] == field
            &&& ftrace_format::field_offset(content, fields[i]@) is None
            &&& ftrace_format::tells_all(content, fields.take(i))
        };
    assert forall|j: int| 0 <= j < i implies !untold(content, (#[trigger] fields[j])@) by {
        assert(fields.take(i)[j] == fields[j]);
    }
    assert(fields.len() == 9);
    assert(i > 0 ==> !untold(content, fields[0]@));
    assert(i > 1 ==> !untold(content, fields[1]@));
    assert(i > 2 ==> !untold(content, fields[2]@));
    assert(i > 3 ==> !untold(content, fields[3]@));
    assert(i > 4 ==> !untold(content, fields[4]@));
    assert(i > 5 ==> !untold(content, fields[5]@));
    assert(i > 6 ==> !untold(content, fields[6]@));
    assert(i > 7 ==> !untold(content, fields[7]@));
}

/// The field that an error about completions names is the first that is missing,
/// in a fixed order.
pub proof fn first_missing_completion_field_is_named(content: Seq<char>, field: &'static str)
    requires
        ftrace_format::first_untold(content, ftrace_format::complete_fields(), field),
    ensures
        field == if untold(content, "ctrl_id"@) {
            "ctrl_id"
        } else if untold(content, "qid"@) {
            "qid"
        } else if untold(content, "cid"@) {
            "cid"
        } else if untold(content, "result"@) {
            "result"
        } else if untold(content, "sq_head"@) {
            "sq_head"
        } else if untold(content, "sq_id"@) {
            "sq_id"
        } else if untold(content, "status"@) {
            "status"
        } else {
            "retries"
        },
{
    let fields = ftrace_format::complete_fields();
    let i = choose|i: int|
        {
            &&& 0 <= i < fields.len()
            &&& #[trigger] fields[i] == field
            &&& ftrace_format::field_offset(content, fields[i]@) is None
            &&& ftrace_format::tells_all(content, fields.take(i))
        };
    assert forall|j: int| 0 <= j < i implies !untold(content, (#[trigger] fields[j])@) by {
        assert(fields.take(i)[j] == fields[j]);
    }
    assert(fields.len() == 8);
    assert(i > 0 ==> !untold(content, fields[0]@));
    assert(i > 1 ==> !untold(content, fields[1]@));
    assert(i > 2 ==> !untold(content, fields[2]@));
    assert(i > 3 ==> !untold(content, fields[3]@));
    assert(i > 4 ==> !untold(content, fields[4]@));
    assert(i > 5 ==> !untold(content, fields[5]@));
    assert(i > 6 ==> !untold(content, fields[6]@));
}

/// A declaration without a name ends the search: whatever follows, the field has
/// no offset.
pub proof fn nameless_declarations_end_the_search(
    space: Seq<char>,
    rest: Seq<char>,
    after: Seq<Seq<char>>,
    name: Seq<char>,
)
    requires
        text_laws::blank(space),
        rest.len() == 0 || !text::is_space(rest.last()),
    ensures
        ftrace_format::offset_in(
            seq!["field:"@ + space + seq![';'] + rest] + after,
            name,
        ) is None,
{
    let declaration = "field:"@ + space;
    let line = declaration + seq![';'] + rest;
    let all = seq![line] + after;
    let none = Seq::<char>::empty();
    reveal_strlit("field:");
    assert(text_laws::lacks(declaration, ';')) by {
        assert forall|i: int| 0 <= i < declaration.len() implies #[trigger] declaration[i]
            != ';' by {
            if i >= 6 {
                assert(declaration[i] == space[i - 6]);
                assert(text::is_space(space[i - 6]));
            }
        }
    }
    assert(!text::is_space(line.last())) by {
        if rest.len() > 0 {
            assert(line.last() == rest.last());
        }
    }
    assert(line[0] == 'f');
    text_laws::trimmed_text_is_what_space_surrounds(none, line, none);
    assert(none + line + none =~= line);
    assert(line.take(6) =~= "field:"@);
    text_laws::lemma_find_behind(declaration, rest, ';');
    assert(line.take(declaration.len() as int) =~= declaration);
    assert(declaration.skip(6) =~= space);
    text_laws::lemma_trim_end(none, space);
    assert(none + space =~= space);
    assert(all[0] == line);
}

/// A line that declares the field but tells no offset is passed over.
pub proof fn declarations_without_an_offset_are_passed_over(
    kind: Seq<char>,
    space: char,
    name: Seq<char>,
    after: Seq<Seq<char>>,
)
    requires
        text_laws::lacks(kind, ';'),
        text::is_space(space),
        name.len() > 0,
        text_laws::solid(name),
        text_laws::lacks(name, ';'),
        text_laws::lacks(name, '['),
    ensures
        ftrace_format::offset_in(
            seq!["field:"@ + kind.push(space) + name + seq![';']] + after,
            name,
        ) == ftrace_format::offset_in(after, name),
{
    let declaration = "field:"@ + kind.push(space) + name;
    let none = Seq::<char>::empty();
    let line = declaration + seq![';'];
    let all = seq![line] + after;
    reveal_strlit("field:");
    reveal_strlit("offset:");
    assert(line[0] == 'f');
    assert(line.last() == ';');
    text_laws::trimmed_text_is_what_space_surrounds(none, line, none);
    assert(none + line + none =~= line);
    assert(line.take(6) =~= "field:"@);
    assert(text_laws::lacks(declaration, ';')) by {
        assert forall|i: int| 0 <= i < declaration.len() implies #[trigger] declaration[i]
            != ';' by {
            let n = kind.len();
            if i < 6 {
            } else if i < 6 + n {
                assert(declaration[i] == kind[i - 6]);
            } else if i == 6 + n {
                assert(declaration[i] == space);
            } else {
                assert(declaration[i] == name[i - 7 - n]);
            }
        }
    }
    assert(line =~= declaration + seq![';'] + none);
    text_laws::lemma_find_behind(declaration, none, ';');
    assert(line.take(declaration.len() as int) =~= declaration);
    assert(declaration.skip(6) =~= kind.push(space) + name);
    text_laws::last_word_stands_behind_the_last_space(kind, space, name);
    text::lemma_find(name, '[');
    assert(name.take(text::find(name, '[')) =~= name);
    text_laws::lemma_parts_cons(declaration, none, ';');
    text_laws::lemma_parts_cons(none, none, ';');
    let parts = text::parts(line, ';');
    assert(parts =~= seq![declaration, none]);
    reveal_with_fuel(ftrace_format::offset_part, 3);
    assert(!text::starts_with(text::trimmed(declaration), "offset:"@)) by {
        assert(none + declaration =~= declaration);
        assert(declaration[0] == 'f');
        text_laws::lemma_trim_start(none, declaration);
        let t = text::trimmed(declaration);
        lemma_trim_end_keeps_front(declaration);
        if text::starts_with(t, "offset:"@) {
            assert(t[0] == t.take(7)[0]);
            assert(t[0] == 'o');
        }
    }
    assert(text::trimmed(none).len() == 0);
    assert(parts.drop_first() =~= seq![none]);
    assert(parts.drop_first().drop_first() =~= seq![]);
    assert(ftrace_format::offset_part(parts) is None);
    assert(all[0] == line);
    assert(all.drop_first() =~= after);
}

/// The processors of a listing come from the smallest number to the largest, each
/// as often as a directory stands for it.
pub proof fn processors_come_in_order(cpus: Seq<u32>, listed: Seq<u32>, cpu: u32)
    requires
        ftrace_format::ascending(cpus, listed),
    ensures
        forall|i: int, j: int|
            #![trigger cpus[i], cpus[j]]
            0 <= i < j < cpus.len() ==> cpus[i] <= cpus[j],
        cpus.to_multiset().count(cpu) == listed.to_multiset().count(cpu),
        cpus.len() == listed.len(),
        cpus.contains(cpu) <==> listed.contains(cpu),
{
    broadcast use vstd::seq_lib::group_to_multiset_ensures;

    cpus.to_multiset_ensures();
    listed.to_multiset_ensures();
    assert(cpus.contains(cpu) <==> cpus.to_multiset().count(cpu) > 0);
    assert(listed.contains(cpu) <==> listed.to_multiset().count(cpu) > 0);
}

} // verus!
