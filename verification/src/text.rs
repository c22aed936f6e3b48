//! Text: numbers written out and read in, and the splitting of text into
//! lines, parts and words.

use vstd::prelude::*;
use vstd::slice::slice_subrange;

verus! {

/// `String::push` appends one character.
pub assume_specification[ String::push ](string: &mut String, c: char)
    ensures
        final(string)@ == old(string)@.push(c),
;

/// The digit `d` of a number in base ten or sixteen.
pub open spec fn digit(d: int) -> char {
    if d < 10 {
        (48 + d) as char
    } else {
        (87 + d) as char
    }
}

/// `n` in base ten.
pub open spec fn decimal(n: nat) -> Seq<char>
    decreases n,
{
    if n < 10 {
        seq![digit(n as int)]
    } else {
        decimal(n / 10).push(digit((n % 10) as int))
    }
}

/// `n` in base sixteen, with leading zeros up to `width` digits.
pub open spec fn hex(n: nat, width: nat) -> Seq<char>
    decreases n, width,
{
    if n < 16 && width <= 1 {
        seq![digit(n as int)]
    } else {
        hex(n / 16, if width == 0 { 0 } else { (width - 1) as nat }).push(digit((n % 16) as int))
    }
}

/// `n` spaces.
pub open spec fn spaces(n: int) -> Seq<char> {
    Seq::new(if n < 0 { 0 } else { n as nat }, |i: int| ' ')
}

/// `text` with spaces behind it up to `width` characters.
pub open spec fn padded(text: Seq<char>, width: int) -> Seq<char> {
    text + spaces(width - text.len())
}

fn digit_char(d: u8) -> (c: char)
    requires
        d < 16,
    ensures
        c == digit(d as int),
{
    if d < 10 {
        (48 + d) as char
    } else {
        (87 + d) as char
    }
}

/// Appends `n` to `out` in base ten.
pub fn push_decimal(out: &mut String, n: u128)
    ensures
        final(out)@ == old(out)@ + decimal(n as nat),
    decreases n,
{
    if n >= 10 {
        push_decimal(out, n / 10);
    }
    out.push(digit_char((n % 10) as u8));
    assert(out@ =~= old(out)@ + decimal(n as nat));
}

/// Appends `n` to `out` in base sixteen, with leading zeros up to `width`
/// digits.
pub fn push_hex(out: &mut String, n: u64, width: u8)
    ensures
        final(out)@ == old(out)@ + hex(n as nat, width as nat),
    decreases n, width,
{
    if n >= 16 || width > 1 {
        push_hex(out, n / 16, if width == 0 { 0 } else { width - 1 });
    }
    out.push(digit_char((n % 16) as u8));
    assert(out@ =~= old(out)@ + hex(n as nat, width as nat));
}

/// Appends `n` to `out` in base ten, with spaces behind it up to `width`
/// characters.
pub fn push_decimal_padded(out: &mut String, n: u64, width: usize)
    ensures
        final(out)@ == old(out)@ + padded(decimal(n as nat), width as int),
{
    let mut number = String::new();
    push_decimal(&mut number, n as u128);
    assert(number@ =~= decimal(n as nat));
    let ghost before = out@;
    out.append(number.as_str());
    let mut left: usize = width;
    for _c in it: number.as_str().chars()
        invariant
            it.seq() == number@,
            left == if it.index() >= width { 0 } else { width - it.index() },
    {
        if left > 0 {
            left = left - 1;
        }
    }
    let ghost total = left;
    while left > 0
        invariant
            left <= total,
            out@ == before + number@ + spaces(total - left),
        decreases left,
    {
        out.push(' ');
        left = left - 1;
        assert(out@ =~= before + number@ + spaces(total - left));
    }
    assert(out@ =~= before + padded(decimal(n as nat), width as int));
}

/// The characters with the Unicode property `White_Space`.
pub open spec fn is_space(c: char) -> bool {
    let n = c as u32;
    ||| 0x9 <= n <= 0xd
    ||| n == 0x20
    ||| n == 0x85
    ||| n == 0xa0
    ||| n == 0x1680
    ||| 0x2000 <= n <= 0x200a
    ||| n == 0x2028
    ||| n == 0x2029
    ||| n == 0x202f
    ||| n == 0x205f
    ||| n == 0x3000
}

/// Tells whether `c` is white space.
pub fn is_whitespace(c: char) -> (yes: bool)
    ensures
        yes == is_space(c),
{
    let n: u32 = c as u32;
    (0x9 <= n && n <= 0xd) || n == 0x20 || n == 0x85 || n == 0xa0 || n == 0x1680 || (0x2000 <= n
        && n <= 0x200a) || n == 0x2028 || n == 0x2029 || n == 0x202f || n == 0x205f || n == 0x3000
}

/// `s` without the white space in front.
pub open spec fn trim_start(s: Seq<char>) -> Seq<char>
    decreases s.len(),
{
    if s.len() > 0 && is_space(s[0]) {
        trim_start(s.drop_first())
    } else {
        s
    }
}

/// `s` without the white space at its end.
pub open spec fn trim_end(s: Seq<char>) -> Seq<char>
    decreases s.len(),
{
    if s.len() > 0 && is_space(s.last()) {
        trim_end(s.drop_last())
    } else {
        s
    }
}

/// `s` without the white space around it.
pub open spec fn trimmed(s: Seq<char>) -> Seq<char> {
    trim_end(trim_start(s))
}

/// The place of the first `c` in `s`, or the length of `s` where there is none.
pub open spec fn find(s: Seq<char>, c: char) -> int
    decreases s.len(),
{
    if s.len() == 0 || s[0] == c {
        0
    } else {
        1 + find(s.drop_first(), c)
    }
}

/// The parts of `s` between the occurrences of `c`.
pub open spec fn parts(s: Seq<char>, c: char) -> Seq<Seq<char>>
    decreases s.len(),
{
    let n = find(s, c);
    if 0 <= n < s.len() {
        seq![s.take(n)] + parts(s.skip(n + 1), c)
    } else {
        seq![s]
    }
}

/// `s` without a carriage return at its end.
pub open spec fn without_return(s: Seq<char>) -> Seq<char> {
    if s.len() > 0 && s.last() == '\r' {
        s.drop_last()
    } else {
        s
    }
}

/// The lines of `s`. A line ends with a line feed, which a carriage return may
/// precede; the last line needs no end.
pub open spec fn lines(s: Seq<char>) -> Seq<Seq<char>>
    decreases s.len(),
{
    let n = find(s, '\n');
    if s.len() == 0 {
        seq![]
    } else if 0 <= n < s.len() {
        seq![without_return(s.take(n))] + lines(s.skip(n + 1))
    } else {
        seq![s]
    }
}

/// The end of `s` that holds no white space.
pub open spec fn last_run(s: Seq<char>) -> Seq<char>
    decreases s.len(),
{
    if s.len() == 0 || is_space(s.last()) {
        seq![]
    } else {
        last_run(s.drop_last()).push(s.last())
    }
}

/// The last word of `s`, words being parted by white space.
pub open spec fn last_word(s: Seq<char>) -> Option<Seq<char>> {
    if trim_end(s).len() == 0 {
        None
    } else {
        Some(last_run(trim_end(s)))
    }
}

/// Tells whether `s` starts with `prefix`.
pub open spec fn starts_with(s: Seq<char>, prefix: Seq<char>) -> bool {
    prefix.len() <= s.len() && s.take(prefix.len() as int) == prefix
}

/// Tells whether `s` ends with `suffix`.
pub open spec fn ends_with(s: Seq<char>, suffix: Seq<char>) -> bool {
    suffix.len() <= s.len() && s.skip(s.len() - suffix.len()) == suffix
}

/// Tells whether `c` is one of the ten digits.
pub open spec fn is_digit(c: char) -> bool {
    '0' <= c <= '9'
}

/// The number that the digits of `s` write.
pub open spec fn digits_value(s: Seq<char>) -> nat
    decreases s.len(),
{
    if s.len() == 0 {
        0
    } else {
        10 * digits_value(s.drop_last()) + (s.last() as nat - 48) as nat
    }
}

/// `s` without a plus sign in front.
pub open spec fn without_plus(s: Seq<char>) -> Seq<char> {
    if s.len() > 0 && s[0] == '+' {
        s.drop_first()
    } else {
        s
    }
}

/// The number that `s` writes: digits alone, at least one of them, with or
/// without a plus sign in front, and no more than `max`.
pub open spec fn number(s: Seq<char>, max: nat) -> Option<nat> {
    let digits = without_plus(s);
    if digits.len() > 0 && (forall|i: int| 0 <= i < digits.len() ==> is_digit(#[trigger] digits[i]))
        && digits_value(digits) <= max {
        Some(digits_value(digits))
    } else {
        None
    }
}

/// Collects the characters of `text`.
pub fn chars_of(text: &str) -> (chars: Vec<char>)
    ensures
        chars@ == text@,
{
    let mut chars: Vec<char> = Vec::new();
    for c in it: text.chars()
        invariant
            it.seq() == text@,
            chars@ =~= text@.take(it.index() as int),
    {
        chars.push(c);
    }
    chars
}

/// Removes the white space around `s`.
pub fn trim(s: &[char]) -> (rest: &[char])
    ensures
        rest@ == trimmed(s@),
{
    let mut from: usize = 0;
    assert(s@.skip(0) =~= s@);
    while from < s.len() && is_whitespace(s[from])
        invariant
            from <= s.len(),
            trim_start(s@) == trim_start(s@.skip(from as int)),
        decreases s.len() - from,
    {
        assert(s@.skip(from as int).drop_first() =~= s@.skip(from + 1));
        from = from + 1;
    }
    let ghost front = trim_start(s@);
    assert(front == s@.skip(from as int));
    let mut to: usize = s.len();
    assert(front.take(front.len() as int) =~= front);
    while to > from && is_whitespace(s[to - 1])
        invariant
            from <= to <= s.len(),
            front == s@.skip(from as int),
            trim_end(front) == trim_end(front.take(to - from)),
        decreases to,
    {
        assert(front.take(to - from).drop_last() =~= front.take(to - from - 1));
        to = to - 1;
    }
    assert(s@.subrange(from as int, to as int) =~= front.take(to - from));
    slice_subrange(s, from, to)
}

/// `find` leaves no `c` before the place that it gives.
pub proof fn lemma_find(s: Seq<char>, c: char)
    ensures
        0 <= find(s, c) <= s.len(),
        find(s, c) < s.len() ==> s[find(s, c)] == c,
        forall|i: int| 0 <= i < find(s, c) ==> s[i] != c,
    decreases s.len(),
{
    if s.len() > 0 && s[0] != c {
        lemma_find(s.drop_first(), c);
        assert forall|i: int| 0 <= i < find(s, c) implies s[i] != c by {
            if i > 0 {
                assert(s[i] == s.drop_first()[i - 1]);
            }
        }
    }
}

/// Finds the first `c` in `s`.
pub fn position(s: &[char], c: char) -> (at: usize)
    ensures
        at == find(s@, c),
        at <= s@.len(),
{
    let mut at: usize = 0;
    assert(s@.skip(0) =~= s@);
    while at < s.len() && s[at] != c
        invariant
            at <= s.len(),
            find(s@, c) == at + find(s@.skip(at as int), c),
        decreases s.len() - at,
    {
        assert(s@.skip(at as int).drop_first() =~= s@.skip(at + 1));
        at = at + 1;
    }
    at
}

/// Parts the first line of `s` from what follows it.
pub fn next_line<'a>(s: &'a [char]) -> (line_and_rest: (&'a [char], &'a [char]))
    requires
        s@.len() > 0,
    ensures
        lines(s@) == seq![line_and_rest.0@] + lines(line_and_rest.1@),
        line_and_rest.1@.len() < s@.len(),
{
    let at = position(s, '\n');
    if at < s.len() {
        let rest = slice_subrange(s, at + 1, s.len());
        assert(rest@ =~= s@.skip(at + 1));
        let end: usize = if at > 0 && s[at - 1] == '\r' {
            at - 1
        } else {
            at
        };
        let line = slice_subrange(s, 0, end);
        assert(line@ =~= without_return(s@.take(at as int)));
        (line, rest)
    } else {
        let rest = slice_subrange(s, s.len(), s.len());
        assert(seq![s@] + lines(rest@) =~= seq![s@]);
        (s, rest)
    }
}

/// Parts what stands before the first `c` in `s` from what follows it.
pub fn next_part<'a>(s: &'a [char], c: char) -> (part_and_rest: (&'a [char], Option<&'a [char]>))
    ensures
        part_and_rest.0@ == s@.take(find(s@, c)),
        match part_and_rest.1 {
            Some(rest) => {
                &&& parts(s@, c) == seq![part_and_rest.0@] + parts(rest@, c)
                &&& rest@.len() < s@.len()
            },
            None => parts(s@, c) == seq![part_and_rest.0@],
        },
{
    let at = position(s, c);
    let part = slice_subrange(s, 0, at);
    assert(part@ =~= s@.take(at as int));
    if at < s.len() {
        let rest = slice_subrange(s, at + 1, s.len());
        assert(rest@ =~= s@.skip(at + 1));
        (part, Some(rest))
    } else {
        assert(part@ =~= s@);
        (part, None)
    }
}

/// Takes the last word of `s`.
pub fn final_word(s: &[char]) -> (word: Option<&[char]>)
    ensures
        match word {
            Some(w) => last_word(s@) == Some(w@),
            None => last_word(s@) is None,
        },
{
    let mut to: usize = s.len();
    assert(s@.take(s@.len() as int) =~= s@);
    while to > 0 && is_whitespace(s[to - 1])
        invariant
            to <= s.len(),
            trim_end(s@) == trim_end(s@.take(to as int)),
        decreases to,
    {
        assert(s@.take(to as int).drop_last() =~= s@.take(to - 1));
        to = to - 1;
    }
    let ghost t = trim_end(s@);
    assert(t == s@.take(to as int));
    if to == 0 {
        return None;
    }
    let mut from: usize = to;
    assert(t.take(to as int) =~= t);
    assert(t.subrange(to as int, to as int) =~= seq![]);
    while from > 0 && !is_whitespace(s[from - 1])
        invariant
            from <= to <= s.len(),
            t == s@.take(to as int),
            last_run(t) =~= last_run(t.take(from as int)) + t.subrange(from as int, to as int),
        decreases from,
    {
        assert(t.take(from as int).drop_last() =~= t.take(from - 1));
        from = from - 1;
    }
    assert(last_run(t.take(from as int)) =~= seq![]);
    assert(s@.subrange(from as int, to as int) =~= t.subrange(from as int, to as int));
    Some(slice_subrange(s, from, to))
}

/// Removes `prefix` from the front of `s`, where it stands there.
pub fn strip_prefix<'a>(s: &'a [char], prefix: &str) -> (rest: Option<&'a [char]>)
    ensures
        match rest {
            Some(r) => starts_with(s@, prefix@) && r@ == s@.skip(prefix@.len() as int),
            None => !starts_with(s@, prefix@),
        },
{
    let wanted = chars_of(prefix);
    if s.len() < wanted.len() {
        return None;
    }
    let mut i: usize = 0;
    while i < wanted.len()
        invariant
            i <= wanted.len() <= s.len(),
            wanted@ == prefix@,
            forall|j: int| 0 <= j < i ==> s[j] == wanted[j],
        decreases wanted.len() - i,
    {
        if s[i] != wanted[i] {
            assert(s@.take(prefix@.len() as int)[i as int] != prefix@[i as int]);
            return None;
        }
        i = i + 1;
    }
    assert(s@.take(prefix@.len() as int) =~= prefix@);
    assert(s@.subrange(wanted.len() as int, s.len() as int) =~= s@.skip(prefix@.len() as int));
    Some(slice_subrange(s, wanted.len(), s.len()))
}

/// Removes `suffix` from the end of `s`, where it stands there.
pub fn strip_suffix<'a>(s: &'a [char], suffix: &str) -> (rest: Option<&'a [char]>)
    ensures
        match rest {
            Some(r) => ends_with(s@, suffix@) && r@ == s@.take(s@.len() - suffix@.len()),
            None => !ends_with(s@, suffix@),
        },
{
    let wanted = chars_of(suffix);
    if s.len() < wanted.len() {
        return None;
    }
    let from: usize = s.len() - wanted.len();
    let mut i: usize = 0;
    while i < wanted.len()
        invariant
            i <= wanted.len() <= s.len(),
            from == s.len() - wanted.len(),
            wanted@ == suffix@,
            forall|j: int| 0 <= j < i ==> s[from + j] == wanted[j],
        decreases wanted.len() - i,
    {
        if s[from + i] != wanted[i] {
            assert(s@.skip(from as int)[i as int] != suffix@[i as int]);
            return None;
        }
        i = i + 1;
    }
    assert(s@.skip(from as int) =~= suffix@);
    assert(s@.subrange(0, from as int) =~= s@.take(s@.len() - suffix@.len()));
    Some(slice_subrange(s, 0, from))
}

/// Tells whether `s` is `text`.
pub fn same_text(s: &[char], text: &str) -> (same: bool)
    ensures
        same == (s@ == text@),
{
    match strip_prefix(s, text) {
        Some(rest) => {
            if rest.len() == 0 {
                assert(s@ =~= s@.take(text@.len() as int));
                true
            } else {
                false
            }
        },
        None => {
            assert(s@.take(s@.len() as int) =~= s@);
            false
        },
    }
}

/// Tells whether `s` holds digits alone.
pub fn all_digits(s: &[char]) -> (yes: bool)
    ensures
        yes == forall|i: int| 0 <= i < s@.len() ==> is_digit(#[trigger] s@[i]),
{
    let mut i: usize = 0;
    while i < s.len()
        invariant
            i <= s.len(),
            forall|j: int| 0 <= j < i ==> is_digit(#[trigger] s@[j]),
        decreases s.len() - i,
    {
        if !('0' <= s[i] && s[i] <= '9') {
            assert(!is_digit(s@[i as int]));
            return false;
        }
        i = i + 1;
    }
    true
}

proof fn lemma_digits_value_grows(s: Seq<char>, n: int)
    requires
        0 <= n <= s.len(),
    ensures
        digits_value(s.take(n)) <= digits_value(s),
    decreases s.len(),
{
    if n < s.len() {
        lemma_digits_value_grows(s.drop_last(), n);
        assert(s.drop_last().take(n) =~= s.take(n));
    } else {
        assert(s.take(n) =~= s);
    }
}

/// Reads the number that `s` writes, where it is no more than `max`.
pub fn parse_number(s: &[char], max: u64) -> (value: Option<u64>)
    ensures
        match value {
            Some(v) => number(s@, max as nat) == Some(v as nat),
            None => number(s@, max as nat) is None,
        },
{
    let from: usize = if s.len() > 0 && s[0] == '+' { 1 } else { 0 };
    let digits = slice_subrange(s, from, s.len());
    assert(digits@ =~= without_plus(s@));
    if digits.len() == 0 || !all_digits(digits) {
        return None;
    }
    let mut value: u64 = 0;
    let mut i: usize = 0;
    assert(digits@.take(0) =~= seq![]);
    while i < digits.len()
        invariant
            i <= digits.len(),
            forall|j: int| 0 <= j < digits@.len() ==> is_digit(#[trigger] digits@[j]),
            value == digits_value(digits@.take(i as int)),
            value <= max,
            digits@ == without_plus(s@),
        decreases digits.len() - i,
    {
        assert(digits@.take(i + 1).drop_last() =~= digits@.take(i as int));
        assert(is_digit(digits@[i as int]));
        let d: u64 = digits[i] as u64 - 48;
        assert(digits_value(digits@.take(i + 1)) == 10 * value + d);
        if value > max / 10 || d > max - 10 * value {
            proof {
                lemma_digits_value_grows(digits@, i + 1);
            }
            return None;
        }
        value = 10 * value + d;
        i = i + 1;
    }
    assert(digits@.take(digits@.len() as int) =~= digits@);
    Some(value)
}

} // verus!
