//! What text that was written out reads back as.

use crate::text;
use vstd::prelude::*;

verus! {

/// `c` does not stand in `s`.
pub open spec fn lacks(s: Seq<char>, c: char) -> bool {
    forall|i: int| 0 <= i < s.len() ==> #[trigger] s[i] != c
}

/// `c` stands in none of `parts`.
pub open spec fn all_lack(parts: Seq<Seq<char>>, c: char) -> bool {
    forall|i: int| 0 <= i < parts.len() ==> lacks(#[trigger] parts[i], c)
}

/// All characters are digits of base ten.
pub open spec fn is_decimal(s: Seq<char>) -> bool {
    forall|i: int| 0 <= i < s.len() ==> text::is_digit(#[trigger] s[i])
}

/// The number that a digit of base sixteen stands for.
pub open spec fn hex_digit_value(c: char) -> nat {
    if '0' <= c <= '9' {
        (c as nat - '0' as nat) as nat
    } else {
        (c as nat - 'a' as nat + 10) as nat
    }
}

/// Tells whether `c` is a digit of base sixteen.
pub open spec fn is_hex_digit(c: char) -> bool {
    '0' <= c <= '9' || 'a' <= c <= 'f'
}

/// The number that `s` writes in base sixteen.
pub open spec fn hex_value(s: Seq<char>) -> nat
    decreases s.len(),
{
    if s.len() == 0 {
        0
    } else {
        16 * hex_value(s.drop_last()) + hex_digit_value(s.last())
    }
}

/// All characters are digits of base sixteen.
pub open spec fn is_hex(s: Seq<char>) -> bool {
    forall|i: int| 0 <= i < s.len() ==> is_hex_digit(#[trigger] s[i])
}

/// A number written in base ten reads back: it has digits alone, and they write
/// the number.
pub proof fn decimal_reads_back(n: nat)
    ensures
        text::decimal(n).len() > 0,
        is_decimal(text::decimal(n)),
        text::digits_value(text::decimal(n)) == n,
        text::number(text::decimal(n), n) == Some(n),
        forall|max: nat| n <= max ==> #[trigger] text::number(text::decimal(n), max) == Some(n),
    decreases n,
{
    let s = text::decimal(n);
    if n >= 10 {
        decimal_reads_back(n / 10);
        assert(s.drop_last() =~= text::decimal(n / 10));
        assert(s.last() == text::digit((n % 10) as int));
        assert forall|i: int| 0 <= i < s.len() implies text::is_digit(#[trigger] s[i]) by {
            if i < s.len() - 1 {
                assert(s.drop_last()[i] == s[i]);
            }
        }
    } else {
        assert(s.drop_last() =~= seq![]);
        assert(text::digits_value(s.drop_last()) == 0);
    }
    assert(text::is_digit(s[0]));
    assert(text::without_plus(s) == s);
}

/// A number written in base sixteen reads back: it has at least the digits that
/// were asked for, digits alone, and they write the number.
pub proof fn hex_reads_back(n: nat, width: nat)
    ensures
        text::hex(n, width).len() > 0,
        text::hex(n, width).len() >= width,
        is_hex(text::hex(n, width)),
        hex_value(text::hex(n, width)) == n,
    decreases n, width,
{
    let s = text::hex(n, width);
    if n < 16 && width <= 1 {
        assert(s.drop_last() =~= seq![]);
        assert(hex_value(s.drop_last()) == 0);
    } else {
        let less: nat = if width == 0 {
            0
        } else {
            (width - 1) as nat
        };
        hex_reads_back(n / 16, less);
        assert(s.drop_last() =~= text::hex(n / 16, less));
        assert(s.last() == text::digit((n % 16) as int));
        assert forall|i: int| 0 <= i < s.len() implies is_hex_digit(#[trigger] s[i]) by {
            if i < s.len() - 1 {
                assert(s.drop_last()[i] == s[i]);
            }
        }
    }
}

/// A number that fits a few digits of base sixteen is written with exactly so
/// many.
pub proof fn hex_has_its_width(n: nat, width: nat)
    requires
        width > 0,
        n < vstd::arithmetic::power::pow(16, width),
    ensures
        text::hex(n, width).len() == width,
    decreases width,
{
    broadcast use vstd::arithmetic::power::lemma_pow0;

    vstd::arithmetic::power::lemma_pow1(16);
    if !(n < 16 && width <= 1) {
        let less = (width - 1) as nat;
        if width == 1 {
            assert(false);
        }
        assert(vstd::arithmetic::power::pow(16, width) == 16 * vstd::arithmetic::power::pow(
            16,
            less,
        )) by {
            reveal(vstd::arithmetic::power::pow);
        }
        hex_has_its_width(n / 16, less);
    }
}

/// Digits are neither white space nor punctuation.
pub proof fn lemma_digits_lack(s: Seq<char>, c: char)
    requires
        is_hex(s) || is_decimal(s),
        !is_hex_digit(c),
    ensures
        lacks(s, c),
{
}

/// Texts with `c` between them.
pub open spec fn joined_by(parts: Seq<Seq<char>>, c: char) -> Seq<char>
    decreases parts.len(),
{
    if parts.len() == 0 {
        seq![]
    } else if parts.len() == 1 {
        parts[0]
    } else {
        joined_by(parts.drop_last(), c).push(c) + parts.last()
    }
}

/// `find` gives the first place of `c`.
pub proof fn lemma_find_behind(a: Seq<char>, b: Seq<char>, c: char)
    requires
        lacks(a, c),
    ensures
        text::find(a + seq![c] + b, c) == a.len(),
    decreases a.len(),
{
    let s = a + seq![c] + b;
    if a.len() > 0 {
        assert(a[0] != c);
        assert(lacks(a.drop_first(), c)) by {
            assert forall|i: int| 0 <= i < a.drop_first().len() implies #[trigger] a.drop_first()[i]
                != c by {
                assert(a[i + 1] != c);
            }
        }
        lemma_find_behind(a.drop_first(), b, c);
        assert(s.drop_first() =~= a.drop_first() + seq![c] + b);
    }
}

proof fn lemma_find_nowhere(a: Seq<char>, c: char)
    requires
        lacks(a, c),
    ensures
        text::find(a, c) == a.len(),
{
    text::lemma_find(a, c);
}

/// What stands before the first `c` is the first part.
pub proof fn lemma_parts_cons(a: Seq<char>, b: Seq<char>, c: char)
    requires
        lacks(a, c),
    ensures
        text::parts(a + seq![c] + b, c) == seq![a] + text::parts(b, c),
        text::parts(a, c) == seq![a],
{
    let s = a + seq![c] + b;
    lemma_find_behind(a, b, c);
    lemma_find_nowhere(a, c);
    assert(s.take(a.len() as int) =~= a);
    assert(s.skip(a.len() as int + 1) =~= b);
}

/// What stands behind the last `c` is the last part.
pub proof fn lemma_parts_snoc(a: Seq<char>, b: Seq<char>, c: char)
    requires
        lacks(b, c),
    ensures
        text::parts(a.push(c) + b, c) == text::parts(a, c).push(b),
    decreases a.len(),
{
    let n = text::find(a, c);
    text::lemma_find(a, c);
    let front = a.take(n);
    assert(lacks(front, c));
    if n < a.len() {
        let rest = a.skip(n + 1);
        assert(a =~= front + seq![c] + rest);
        lemma_parts_cons(front, rest, c);
        lemma_parts_snoc(rest, b, c);
        assert(a.push(c) + b =~= front + seq![c] + (rest.push(c) + b));
        lemma_parts_cons(front, rest.push(c) + b, c);
        assert(text::parts(a.push(c) + b, c) =~= text::parts(a, c).push(b));
    } else {
        assert(front =~= a);
        lemma_parts_cons(a, b, c);
        lemma_parts_cons(b, b, c);
        assert(a.push(c) + b =~= a + seq![c] + b);
        assert(text::parts(a.push(c) + b, c) =~= text::parts(a, c).push(b));
    }
}

/// Texts with `c` between them are parted at `c` into the same texts.
pub proof fn joined_parts_read_back(parts: Seq<Seq<char>>, c: char)
    requires
        parts.len() > 0,
        all_lack(parts, c),
    ensures
        text::parts(joined_by(parts, c), c) == parts,
    decreases parts.len(),
{
    if parts.len() == 1 {
        lemma_parts_cons(parts[0], parts[0], c);
        assert(seq![parts[0]] =~= parts);
    } else {
        let front = parts.drop_last();
        assert(all_lack(front, c)) by {
            assert forall|i: int| 0 <= i < front.len() implies lacks(#[trigger] front[i], c) by {
                assert(front[i] == parts[i]);
            }
        }
        joined_parts_read_back(front, c);
        assert(lacks(parts[parts.len() - 1], c));
        lemma_parts_snoc(joined_by(front, c), parts.last(), c);
        assert(front.push(parts.last()) =~= parts);
    }
}

/// One more text stands behind one more `c`.
pub proof fn lemma_joined_push(parts: Seq<Seq<char>>, part: Seq<char>, c: char)
    requires
        parts.len() > 0,
    ensures
        joined_by(parts.push(part), c) == joined_by(parts, c) + seq![c] + part,
{
    assert(parts.push(part).drop_last() =~= parts);
    assert(joined_by(parts, c).push(c) + part =~= joined_by(parts, c) + seq![c] + part);
}

/// Joined texts hold what stands between them and what they hold themselves.
pub proof fn lemma_joined_lacks(parts: Seq<Seq<char>>, c: char, other: char)
    requires
        all_lack(parts, other),
        other != c,
    ensures
        lacks(joined_by(parts, c), other),
    decreases parts.len(),
{
    if parts.len() > 0 {
        let front = parts.drop_last();
        let last = parts.last();
        assert(lacks(parts[parts.len() - 1], other));
        assert(all_lack(front, other)) by {
            assert forall|i: int| 0 <= i < front.len() implies lacks(
                #[trigger] front[i],
                other,
            ) by {
                assert(front[i] == parts[i]);
            }
        }
        lemma_joined_lacks(front, c, other);
        let before = joined_by(front, c);
        let joined = joined_by(parts, c);
        if parts.len() > 1 {
            assert forall|j: int| 0 <= j < joined.len() implies #[trigger] joined[j] != other by {
                if j < before.len() {
                    assert(joined[j] == before[j]);
                } else if j > before.len() {
                    assert(joined[j] == last[j - before.len() - 1]);
                }
            }
        }
    }
}

/// A line in front of others is the first of them.
pub proof fn lemma_lines_cons(a: Seq<char>, b: Seq<char>)
    requires
        lacks(a, '\n'),
        lacks(a, '\r'),
    ensures
        text::lines(a.push('\n') + b) == seq![a] + text::lines(b),
{
    let s = a.push('\n') + b;
    lemma_find_behind(a, b, '\n');
    assert(s =~= a + seq!['\n'] + b);
    assert(s.take(a.len() as int) =~= a);
    assert(s.skip(a.len() as int + 1) =~= b);
    assert(text::without_return(a) == a);
}

/// The lines of a text that ends a line, and of what follows it.
pub proof fn lemma_lines_append(a: Seq<char>, b: Seq<char>)
    requires
        a.len() == 0 || a.last() == '\n',
    ensures
        text::lines(a + b) == text::lines(a) + text::lines(b),
    decreases a.len(),
{
    if a.len() == 0 {
        assert(a + b =~= b);
        assert(text::lines(a) + text::lines(b) =~= text::lines(b));
    } else {
        text::lemma_find(a, '\n');
        let n = text::find(a, '\n');
        assert(n < a.len()) by {
            if n == a.len() {
                assert(a[a.len() - 1] != '\n');
            }
        }
        let front = a.take(n);
        let rest = a.skip(n + 1);
        assert(lacks(front, '\n'));
        lemma_lines_append(rest, b);
        assert(a + b =~= front + seq!['\n'] + (rest + b));
        lemma_find_behind(front, rest + b, '\n');
        assert((a + b).take(n) =~= front);
        assert((a + b).skip(n + 1) =~= rest + b);
        assert(text::lines(a + b) =~= text::lines(a) + text::lines(b));
    }
}

/// All characters are white space.
pub open spec fn blank(s: Seq<char>) -> bool {
    forall|i: int| 0 <= i < s.len() ==> text::is_space(#[trigger] s[i])
}

/// No character is white space.
pub open spec fn solid(s: Seq<char>) -> bool {
    forall|i: int| 0 <= i < s.len() ==> !text::is_space(#[trigger] s[i])
}

/// White space in front is left out, and nothing else.
pub proof fn lemma_trim_start(space: Seq<char>, s: Seq<char>)
    requires
        blank(space),
        s.len() == 0 || !text::is_space(s[0]),
    ensures
        text::trim_start(space + s) == s,
    decreases space.len(),
{
    if space.len() == 0 {
        assert(space + s =~= s);
    } else {
        assert((space + s).drop_first() =~= space.drop_first() + s);
        assert(blank(space.drop_first())) by {
            assert forall|i: int| 0 <= i < space.drop_first().len() implies text::is_space(
                #[trigger] space.drop_first()[i],
            ) by {
                assert(space.drop_first()[i] == space[i + 1]);
            }
        }
        assert(text::is_space(space[0]));
        lemma_trim_start(space.drop_first(), s);
    }
}

/// White space at the end is left out, and nothing else.
pub proof fn lemma_trim_end(s: Seq<char>, space: Seq<char>)
    requires
        blank(space),
        s.len() == 0 || !text::is_space(s.last()),
    ensures
        text::trim_end(s + space) == s,
    decreases space.len(),
{
    if space.len() == 0 {
        assert(s + space =~= s);
    } else {
        assert((s + space).drop_last() =~= s + space.drop_last());
        assert((s + space).last() == space.last());
        assert(blank(space.drop_last())) by {
            assert forall|i: int| 0 <= i < space.drop_last().len() implies text::is_space(
                #[trigger] space.drop_last()[i],
            ) by {
                assert(space.drop_last()[i] == space[i]);
            }
        }
        assert(text::is_space(space[space.len() - 1]));
        lemma_trim_end(s, space.drop_last());
    }
}

/// Text that white space surrounds is what remains without it.
pub proof fn trimmed_text_is_what_space_surrounds(
    before: Seq<char>,
    s: Seq<char>,
    after: Seq<char>,
)
    requires
        blank(before),
        blank(after),
        s.len() > 0,
        !text::is_space(s[0]),
        !text::is_space(s.last()),
    ensures
        text::trimmed(before + s + after) == s,
{
    assert(before + s + after =~= before + (s + after));
    assert((s + after)[0] == s[0]);
    lemma_trim_start(before, s + after);
    lemma_trim_end(s, after);
}

/// What stands behind the last white space is the last word.
pub proof fn last_word_stands_behind_the_last_space(a: Seq<char>, space: char, word: Seq<char>)
    requires
        text::is_space(space),
        solid(word),
        word.len() > 0,
    ensures
        text::last_word(a.push(space) + word) == Some(word),
{
    let s = a.push(space) + word;
    assert(s.last() == word.last());
    assert(!text::is_space(word[word.len() - 1]));
    lemma_last_run(a, space, word);
}

proof fn lemma_last_run(a: Seq<char>, space: char, word: Seq<char>)
    requires
        text::is_space(space),
        solid(word),
    ensures
        text::last_run(a.push(space) + word) == word,
    decreases word.len(),
{
    let s = a.push(space) + word;
    if word.len() == 0 {
        assert(s.last() == space);
        assert(word =~= seq![]);
    } else {
        let front = word.drop_last();
        assert(solid(front)) by {
            assert forall|i: int| 0 <= i < front.len() implies !text::is_space(
                #[trigger] front[i],
            ) by {
                assert(front[i] == word[i]);
            }
        }
        lemma_last_run(a, space, front);
        assert(s.drop_last() =~= a.push(space) + front);
        assert(s.last() == word[word.len() - 1]);
        assert(front.push(word.last()) =~= word);
    }
}

/// A number written in base ten holds no white space.
pub proof fn decimal_is_solid(n: nat)
    ensures
        solid(text::decimal(n)),
        text::decimal(n).len() > 0,
        !text::is_space(text::decimal(n)[0]),
        !text::is_space(text::decimal(n).last()),
        text::trimmed(text::decimal(n)) == text::decimal(n),
{
    let s = text::decimal(n);
    decimal_reads_back(n);
    assert forall|i: int| 0 <= i < s.len() implies !text::is_space(#[trigger] s[i]) by {
        assert(text::is_digit(s[i]));
    }
    assert(!text::is_space(s[s.len() - 1]));
    let none = Seq::<char>::empty();
    trimmed_text_is_what_space_surrounds(none, s, none);
    assert(none + s + none =~= s);
}

/// A number may have zeros or one plus sign in front, which change nothing; it is
/// refused where it is larger than the limit, has no digit, or has anything else
/// in it.
pub proof fn numbers_are_digits(s: Seq<char>, max: nat)
    ensures
        is_decimal(s) && s.len() > 0 ==> {
            &&& text::digits_value(seq!['0'] + s) == text::digits_value(s)
            &&& text::number(seq!['0'] + s, max) == text::number(s, max)
            &&& text::number(seq!['+'] + s, max) == text::number(s, max)
            &&& text::number(s, max) is Some <==> text::digits_value(s) <= max
        },
        (exists|i: int| 0 < i < s.len() && !text::is_digit(#[trigger] s[i])) ==> text::number(
            s,
            max,
        ) is None,
        s.len() == 0 || !text::is_digit(s[0]) && s[0] != '+' || s =~= seq!['+'] ==> text::number(
            s,
            max,
        ) is None,
{
    if is_decimal(s) && s.len() > 0 {
        let zero = seq!['0'] + s;
        let plus = seq!['+'] + s;
        lemma_zero_in_front(s);
        assert(text::is_digit(s[0]));
        assert(forall|i: int| 0 <= i < zero.len() ==> text::is_digit(#[trigger] zero[i]));
        assert(plus.drop_first() =~= s);
        assert(text::without_plus(zero) == zero);
        assert(text::without_plus(s) == s);
    }
    let digits = text::without_plus(s);
    if exists|i: int| 0 < i < s.len() && !text::is_digit(#[trigger] s[i]) {
        let i = choose|i: int| 0 < i < s.len() && !text::is_digit(#[trigger] s[i]);
        if s[0] == '+' {
            assert(digits[i - 1] == s[i]);
        } else {
            assert(digits[i] == s[i]);
        }
    }
    if s.len() > 0 && !text::is_digit(s[0]) && s[0] != '+' {
        assert(digits[0] == s[0]);
    }
}

proof fn lemma_zero_in_front(s: Seq<char>)
    ensures
        text::digits_value(seq!['0'] + s) == text::digits_value(s),
    decreases s.len(),
{
    let zero = seq!['0'] + s;
    if s.len() == 0 {
        assert(zero.drop_last() =~= seq![]);
        assert(text::digits_value(zero.drop_last()) == 0);
    } else {
        lemma_zero_in_front(s.drop_last());
        assert(zero.drop_last() =~= seq!['0'] + s.drop_last());
        assert(zero.last() == s.last());
    }
}

/// A carriage return before the end of a line does not belong to the line; the
/// last line needs no end; and no text has no lines.
pub proof fn line_ends_are_left_out(a: Seq<char>, b: Seq<char>)
    requires
        lacks(a, '\n'),
    ensures
        text::lines(a + seq!['\r', '\n'] + b) == seq![a] + text::lines(b),
        a.len() == 0 || a.last() != '\r' ==> text::lines(a + seq!['\n'] + b) == seq![a]
            + text::lines(b),
        a.len() > 0 ==> text::lines(a) == seq![a],
        text::lines(seq![]).len() == 0,
{
    let returned = a.push('\r');
    let s = a + seq!['\r', '\n'] + b;
    assert(s =~= returned + seq!['\n'] + b);
    lemma_find_behind(returned, b, '\n');
    assert(s.take(returned.len() as int) =~= returned);
    assert(s.skip(returned.len() as int + 1) =~= b);
    assert(returned.drop_last() =~= a);
    let t = a + seq!['\n'] + b;
    lemma_find_behind(a, b, '\n');
    assert(t.take(a.len() as int) =~= a);
    assert(t.skip(a.len() as int + 1) =~= b);
    lemma_find_nowhere(a, '\n');
}

/// White space is what Unicode calls so: the five controls from the tab to the
/// carriage return, the space, the next line, and the spaces and separators
/// beyond.
pub proof fn white_space_is_what_unicode_calls_so(c: char)
    ensures
        text::is_space(c) <==> {
            ||| c == '\t' || c == '\n' || c == '\u{b}' || c == '\u{c}' || c == '\r'
            ||| c == ' ' || c == '\u{85}' || c == '\u{a0}' || c == '\u{1680}'
            ||| c == '\u{2000}' || c == '\u{2001}' || c == '\u{2002}' || c == '\u{2003}'
            ||| c == '\u{2004}' || c == '\u{2005}' || c == '\u{2006}' || c == '\u{2007}'
            ||| c == '\u{2008}' || c == '\u{2009}' || c == '\u{200a}'
            ||| c == '\u{2028}' || c == '\u{2029}' || c == '\u{202f}' || c == '\u{205f}'
            ||| c == '\u{3000}'
        },
{
}

} // verus!
