//! What the numbers and units of a time scale add up to.

use crate::scale;
use crate::text;
use crate::text_laws;
use vstd::prelude::*;

verus! {

/// A number with its unit, and the white space in front of it. The number may
/// have digits behind a decimal point.
#[verifier::ext_equal]
pub struct Part {
    pub gap: Seq<char>,
    pub number: nat,
    pub fraction: Seq<char>,
    pub unit: Seq<char>,
}

/// The nanoseconds of a unit, told by its name.
pub open spec fn unit_value(unit: Seq<char>) -> Option<nat> {
    if unit == "nanos"@ || unit == "nsec"@ || unit == "ns"@ {
        Some(1)
    } else if unit == "usec"@ || unit == "us"@ || unit == "µs"@ {
        Some(1_000)
    } else if unit == "millis"@ || unit == "msec"@ || unit == "ms"@ {
        Some(1_000_000)
    } else if unit == "seconds"@ || unit == "second"@ || unit == "secs"@ || unit == "sec"@ || unit
        == "s"@ {
        Some(1_000_000_000)
    } else if unit == "minutes"@ || unit == "minute"@ || unit == "min"@ || unit == "mins"@ || unit
        == "m"@ {
        Some(60 * 1_000_000_000)
    } else if unit == "hours"@ || unit == "hour"@ || unit == "hr"@ || unit == "hrs"@ || unit
        == "h"@ {
        Some(3_600 * 1_000_000_000)
    } else if unit == "days"@ || unit == "day"@ || unit == "d"@ {
        Some(86_400 * 1_000_000_000)
    } else if unit == "weeks"@ || unit == "week"@ || unit == "wk"@ || unit == "wks"@ || unit
        == "w"@ {
        Some(7 * 86_400 * 1_000_000_000)
    } else if unit == "months"@ || unit == "month"@ || unit == "M"@ {
        Some(2_630_016 * 1_000_000_000)
    } else if unit == "years"@ || unit == "year"@ || unit == "yr"@ || unit == "yrs"@ || unit
        == "y"@ {
        Some(31_557_600 * 1_000_000_000)
    } else {
        None
    }
}

/// A part that can stand in a scale.
pub open spec fn writable(part: Part) -> bool {
    &&& text_laws::blank(part.gap)
    &&& text_laws::is_decimal(part.fraction)
    &&& unit_value(part.unit) is Some
}

/// The digits of a part behind the point, with the point.
pub open spec fn fraction_text(part: Part) -> Seq<char> {
    if part.fraction.len() > 0 {
        seq!['.'] + part.fraction
    } else {
        seq![]
    }
}

/// The least whole number that is not less than the number of a part.
pub open spec fn rounded_up(part: Part) -> nat {
    if text::digits_value(part.fraction) > 0 {
        part.number + 1
    } else {
        part.number
    }
}

/// The text of a part.
pub open spec fn part_text(part: Part) -> Seq<char> {
    part.gap + text::decimal(part.number) + fraction_text(part) + part.unit
}

/// The text of parts, one behind the other.
pub open spec fn parts_text(parts: Seq<Part>) -> Seq<char>
    decreases parts.len(),
{
    if parts.len() == 0 {
        seq![]
    } else {
        parts_text(parts.drop_last()) + part_text(parts.last())
    }
}

/// The nanoseconds of parts together, their numbers rounded up.
pub open spec fn sum_of(parts: Seq<Part>) -> nat
    decreases parts.len(),
{
    if parts.len() == 0 {
        0
    } else {
        sum_of(parts.drop_last()) + rounded_up(parts.last()) * unit_value(
            parts.last().unit,
        ).unwrap()
    }
}

/// A word stands at a place of a text, with no letter behind it.
spec fn word_at(s: Seq<char>, i: int, word: Seq<char>) -> bool {
    &&& 0 <= i
    &&& i + word.len() <= s.len()
    &&& s.subrange(i, i + word.len()) == word
    &&& i + word.len() < s.len() ==> !scale::is_letter(s[i + word.len()])
}

#[verifier::rlimit(50)]
#[verifier::spinoff_prover]
proof fn lemma_small_units(s: Seq<char>, i: int, unit: Seq<char>)
    requires
        word_at(s, i, unit),
        unit_value(unit) is Some,
        unit_value(unit).unwrap() <= 1_000_000_000,
    ensures
        unit.len() > 0,
        forall|k: int| 0 <= k < unit.len() ==> scale::is_letter(#[trigger] unit[k]),
        scale::unit_nanos(s, i) == unit_value(unit).unwrap(),
{
    reveal_strlit("nanos");
    reveal_strlit("nsec");
    reveal_strlit("ns");
    reveal_strlit("usec");
    reveal_strlit("us");
    reveal_strlit("µs");
    reveal_strlit("millis");
    reveal_strlit("msec");
    reveal_strlit("ms");
    reveal_strlit("seconds");
    reveal_strlit("second");
    reveal_strlit("secs");
    reveal_strlit("sec");
    reveal_strlit("s");
    assert(forall|k: int| 0 <= k < unit.len() ==> #[trigger] unit[k] == s[i + k]);
    assert(s[i] == unit[0]);
    if unit.len() > 1 {
        assert(s[i + 1] == unit[1]);
    }
    if unit.len() > 2 {
        assert(s[i + 2] == unit[2]);
    }
}

#[verifier::rlimit(50)]
#[verifier::spinoff_prover]
proof fn lemma_large_units(s: Seq<char>, i: int, unit: Seq<char>)
    requires
        word_at(s, i, unit),
        unit_value(unit) is Some,
        unit_value(unit).unwrap() > 1_000_000_000,
    ensures
        unit.len() > 0,
        forall|k: int| 0 <= k < unit.len() ==> scale::is_letter(#[trigger] unit[k]),
        scale::unit_nanos(s, i) == unit_value(unit).unwrap(),
{
    reveal_strlit("minutes");
    reveal_strlit("minute");
    reveal_strlit("min");
    reveal_strlit("mins");
    reveal_strlit("m");
    reveal_strlit("hours");
    reveal_strlit("hour");
    reveal_strlit("hr");
    reveal_strlit("hrs");
    reveal_strlit("h");
    reveal_strlit("days");
    reveal_strlit("day");
    reveal_strlit("d");
    reveal_strlit("weeks");
    reveal_strlit("week");
    reveal_strlit("wk");
    reveal_strlit("wks");
    reveal_strlit("w");
    reveal_strlit("months");
    reveal_strlit("month");
    reveal_strlit("M");
    reveal_strlit("years");
    reveal_strlit("year");
    reveal_strlit("yr");
    reveal_strlit("yrs");
    reveal_strlit("y");
    assert(forall|k: int| 0 <= k < unit.len() ==> #[trigger] unit[k] == s[i + k]);
    assert(s[i] == unit[0]);
    if unit.len() > 1 {
        assert(s[i + 1] == unit[1]);
    }
    if unit.len() > 2 {
        assert(s[i + 2] == unit[2]);
    }
}

/// The scan of a text stands between two parts.
spec fn between(s: Seq<char>, n: int) -> bool {
    &&& scale::current(s, n) == 0
    &&& !scale::in_fraction(s, n)
    &&& scale::waiting(s, n) == 0
}

proof fn lemma_gap(s: Seq<char>, n: int, k: int)
    requires
        0 <= n,
        0 <= k,
        n + k <= s.len(),
        between(s, n),
        forall|j: int| n <= j < n + k ==> text::is_space(#[trigger] s[j]),
    ensures
        between(s, n + k),
        scale::nanos_bound(s, n + k) == scale::nanos_bound(s, n),
        forall|j: int| n <= j < n + k ==> !#[trigger] scale::unit_begins(s, j),
    decreases k,
{
    if k > 0 {
        lemma_gap(s, n, k - 1);
        assert(text::is_space(s[n + k - 1]));
    }
}

proof fn lemma_digits(s: Seq<char>, n: int, k: int)
    requires
        0 <= n,
        0 <= k,
        n + k <= s.len(),
        scale::current(s, n) == 0,
        forall|j: int| n <= j < n + k ==> text::is_digit(#[trigger] s[j]),
    ensures
        scale::current(s, n + k) == text::digits_value(s.subrange(n, n + k)),
        scale::in_fraction(s, n + k) == scale::in_fraction(s, n),
        scale::waiting(s, n + k) == scale::waiting(s, n),
        scale::nanos_bound(s, n + k) == scale::nanos_bound(s, n),
        forall|j: int| n <= j < n + k ==> !#[trigger] scale::unit_begins(s, j),
    decreases k,
{
    let digits = s.subrange(n, n + k);
    if k > 0 {
        lemma_digits(s, n, k - 1);
        assert(digits.drop_last() =~= s.subrange(n, n + k - 1));
        assert(digits.last() == s[n + k - 1]);
        assert(text::is_digit(s[n + k - 1]));
    } else {
        assert(digits =~= seq![]);
    }
}

proof fn lemma_unit(s: Seq<char>, n: int, k: int)
    requires
        0 <= n,
        1 <= k,
        n + k <= s.len(),
        n > 0 ==> !scale::is_letter(s[n - 1]),
        forall|j: int| n <= j < n + k ==> scale::is_letter(#[trigger] s[j]),
    ensures
        between(s, n + k),
        scale::nanos_bound(s, n + k) == scale::nanos_bound(s, n) + (scale::waiting(s, n)
            + scale::amount(s, n)) * scale::unit_nanos(s, n),
        scale::unit_begins(s, n),
        forall|j: int| n < j < n + k ==> !#[trigger] scale::unit_begins(s, j),
    decreases k,
{
    assert(scale::is_letter(s[n]));
    assert(scale::unit_begins(s, n));
    if k > 1 {
        lemma_unit(s, n, k - 1);
        assert(scale::is_letter(s[n + k - 1]));
        assert(scale::is_letter(s[n + k - 2]));
        assert(!scale::unit_begins(s, n + k - 1));
        lemma_letter_is_neither(s[n + k - 1]);
        assert(scale::amount(s, n + k - 1) == 0);
    } else {
        lemma_letter_is_neither(s[n]);
    }
}

/// The scan over a decimal point and what stands behind it.
proof fn lemma_fraction(s: Seq<char>, n: int, fraction: Seq<char>)
    requires
        0 < n,
        n + 1 + fraction.len() <= s.len(),
        text::is_digit(s[n - 1]),
        s[n] == '.',
        !scale::in_fraction(s, n),
        scale::waiting(s, n) == 0,
        text_laws::is_decimal(fraction),
        s.subrange(n + 1, n + 1 + fraction.len()) == fraction,
    ensures
        ({
            let to = n + 1 + fraction.len();
            &&& scale::waiting(s, to) == scale::current(s, n)
            &&& scale::amount(s, to) == if text::digits_value(fraction) > 0 {
                1nat
            } else {
                0nat
            }
            &&& scale::nanos_bound(s, to) == scale::nanos_bound(s, n)
            &&& forall|j: int| n <= j < to ==> !#[trigger] scale::unit_begins(s, j)
        }),
{
    assert(!text::is_space('.'));
    assert forall|j: int| n + 1 <= j < n + 1 + fraction.len() implies text::is_digit(
        #[trigger] s[j],
    ) by {
        assert(s[j] == s.subrange(n + 1, n + 1 + fraction.len())[j - n - 1]);
        assert(text::is_digit(fraction[j - n - 1]));
    }
    assert(!scale::unit_begins(s, n));
    lemma_digits(s, n + 1, fraction.len() as int);
}

proof fn lemma_letter_is_neither(c: char)
    requires
        scale::is_letter(c),
    ensures
        !text::is_digit(c),
        !text::is_space(c),
        c != '.',
{
}

proof fn lemma_prefix(parts: Seq<Part>, k: int)
    requires
        0 <= k <= parts.len(),
    ensures
        parts_text(parts.take(k)).len() <= parts_text(parts).len(),
        parts_text(parts).take(parts_text(parts.take(k)).len() as int) == parts_text(
            parts.take(k),
        ),
    decreases parts.len(),
{
    let s = parts_text(parts);
    if k == parts.len() {
        assert(parts.take(k) =~= parts);
        assert(s.take(s.len() as int) =~= s);
    } else {
        let front = parts.drop_last();
        lemma_prefix(front, k);
        assert(front.take(k) =~= parts.take(k));
        let n = parts_text(parts.take(k)).len() as int;
        assert(s.take(n) =~= parts_text(front).take(n));
    }
}

/// Where part `k` of a text stands.
proof fn lemma_part_here(parts: Seq<Part>, k: int)
    requires
        0 <= k < parts.len(),
    ensures
        ({
            let s = parts_text(parts);
            let n = parts_text(parts.take(k)).len() as int;
            let to = n + part_text(parts[k]).len();
            &&& to == parts_text(parts.take(k + 1)).len()
            &&& to <= s.len()
            &&& s.subrange(n, to) == part_text(parts[k])
        }),
{
    let s = parts_text(parts);
    let before = parts_text(parts.take(k));
    let n = before.len() as int;
    let to = n + part_text(parts[k]).len();
    lemma_prefix(parts, k + 1);
    assert(parts.take(k + 1).drop_last() =~= parts.take(k));
    assert(parts.take(k + 1).last() == parts[k]);
    let now = parts_text(parts.take(k + 1));
    assert(now == before + part_text(parts[k]));
    assert(s.subrange(n, to) =~= s.take(to).subrange(n, to));
    assert(now.subrange(n, to) =~= part_text(parts[k]));
}

/// The scan over one part.
#[verifier::rlimit(50)]
#[verifier::spinoff_prover]
proof fn lemma_part(s: Seq<char>, n: int, part: Part)
    requires
        writable(part),
        0 <= n,
        n + part_text(part).len() <= s.len(),
        s.subrange(n, n + part_text(part).len()) == part_text(part),
        n + part_text(part).len() < s.len() ==> !scale::is_letter(s[n + part_text(part).len()]),
        between(s, n),
    ensures
        ({
            let to = n + part_text(part).len();
            let at = to - part.unit.len();
            &&& between(s, to)
            &&& scale::nanos_bound(s, to) == scale::nanos_bound(s, n) + rounded_up(part)
                * unit_value(part.unit).unwrap()
            &&& n <= at < to
            &&& scale::unit_begins(s, at)
            &&& forall|j: int|
                n <= j < to && j != at ==> !#[trigger] scale::unit_begins(s, j)
        }),
{
    let digits = text::decimal(part.number);
    let whole = part_text(part);
    let here = s.subrange(n, n + whole.len());
    let g = part.gap.len();
    let d = digits.len();
    let point = n + g + d;
    let tail = fraction_text(part);
    let f = tail.len();
    let at = point + f;
    text_laws::decimal_reads_back(part.number);
    assert forall|j: int| n <= j < n + g implies text::is_space(#[trigger] s[j]) by {
        assert(s[j] == here[j - n]);
        assert(here[j - n] == part.gap[j - n]);
    }
    assert forall|j: int| n + g <= j < point implies text::is_digit(#[trigger] s[j]) by {
        assert(s[j] == here[j - n]);
        assert(here[j - n] == digits[j - n - g]);
    }
    assert(s.subrange(at, at + part.unit.len()) =~= part.unit) by {
        assert(s.subrange(at, at + part.unit.len()) =~= here.subrange(
            at - n,
            at - n + part.unit.len(),
        ));
        assert(whole.subrange(at - n, at - n + part.unit.len()) =~= part.unit);
    }
    assert(s.subrange(point, at) =~= tail) by {
        assert(s.subrange(point, at) =~= here.subrange(point - n, at - n));
        assert(whole.subrange(point - n, at - n) =~= tail);
    }
    assert(s.subrange(n + g, point) =~= digits) by {
        assert(s.subrange(n + g, point) =~= here.subrange(g as int, g + d as int));
        assert(whole.subrange(g as int, g + d as int) =~= digits);
    }
    assert(word_at(s, at, part.unit));
    if unit_value(part.unit).unwrap() <= 1_000_000_000 {
        lemma_small_units(s, at, part.unit);
    } else {
        lemma_large_units(s, at, part.unit);
    }
    assert forall|j: int| at <= j < at + part.unit.len() implies scale::is_letter(
        #[trigger] s[j],
    ) by {
        assert(s[j] == s.subrange(at, at + part.unit.len())[j - at]);
        assert(scale::is_letter(part.unit[j - at]));
    }
    lemma_gap(s, n, g as int);
    lemma_digits(s, n + g, d as int);
    assert(text::is_digit(s[point - 1]));
    if part.fraction.len() > 0 {
        assert(s[point] == s.subrange(point, at)[0]);
        assert(s.subrange(point + 1, at) =~= tail.subrange(1, f as int)) by {
            assert(s.subrange(point + 1, at) =~= s.subrange(point, at).subrange(1, f as int));
        }
        assert(tail.subrange(1, f as int) =~= part.fraction);
        lemma_fraction(s, point, part.fraction);
        assert(s[at - 1] == s.subrange(point + 1, at)[part.fraction.len() - 1]);
        assert(text::is_digit(part.fraction[part.fraction.len() - 1]));
        assert(!scale::is_letter(s[at - 1]));
    } else {
        assert(text::digits_value(part.fraction) == 0);
        assert(scale::amount(s, at) == part.number);
    }
    assert(scale::waiting(s, at) + scale::amount(s, at) == rounded_up(part));
    lemma_unit(s, at, part.unit.len() as int);
}

proof fn lemma_scan(parts: Seq<Part>, k: int)
    requires
        0 <= k <= parts.len(),
        forall|i: int| 0 <= i < parts.len() ==> writable(#[trigger] parts[i]),
    ensures
        ({
            let s = parts_text(parts);
            let n = parts_text(parts.take(k)).len() as int;
            &&& between(s, n)
            &&& scale::nanos_bound(s, n) == sum_of(parts.take(k))
            &&& k == 0 ==> n == 0
            &&& k == 1 ==> exists|at: int|
                0 <= at < n && #[trigger] scale::unit_begins(s, at) && forall|j: int|
                    0 <= j < n && j != at ==> !#[trigger] scale::unit_begins(s, j)
            &&& k >= 2 ==> exists|i: int, j: int|
                0 <= i < j < n && #[trigger] scale::unit_begins(s, i)
                    && #[trigger] scale::unit_begins(s, j)
        }),
    decreases k,
{
    let s = parts_text(parts);
    let n = parts_text(parts.take(k)).len() as int;
    if k == 0 {
        assert(parts.take(0) =~= seq![]);
    } else {
        let m = parts_text(parts.take(k - 1)).len() as int;
        let part = parts[k - 1];
        lemma_scan(parts, k - 1);
        lemma_part_here(parts, k - 1);
        assert(writable(part));
        if n < s.len() {
            lemma_next_is_no_letter(parts, k);
        }
        lemma_part(s, m, part);
        let at = n - part.unit.len();
        assert(parts.take(k).drop_last() =~= parts.take(k - 1));
        assert(parts.take(k).last() == part);
        assert(scale::unit_begins(s, at));
        if k == 2 {
            let i = choose|i: int|
                0 <= i < m && #[trigger] scale::unit_begins(s, i) && forall|j: int|
                    0 <= j < m && j != i ==> !#[trigger] scale::unit_begins(s, j);
            assert(scale::unit_begins(s, i));
        } else if k > 2 {
            let (i, j) = choose|i: int, j: int|
                0 <= i < j < m && #[trigger] scale::unit_begins(s, i)
                    && #[trigger] scale::unit_begins(s, j);
            assert(scale::unit_begins(s, i) && scale::unit_begins(s, j));
        }
    }
}

proof fn lemma_next_is_no_letter(parts: Seq<Part>, k: int)
    requires
        0 <= k <= parts.len(),
        parts_text(parts.take(k)).len() < parts_text(parts).len(),
        forall|i: int| 0 <= i < parts.len() ==> writable(#[trigger] parts[i]),
    ensures
        !scale::is_letter(parts_text(parts)[parts_text(parts.take(k)).len() as int]),
{
    let s = parts_text(parts);
    let n = parts_text(parts.take(k)).len() as int;
    if k == parts.len() {
        assert(parts.take(k) =~= parts);
    } else {
        let part = parts[k];
        let digits = text::decimal(part.number);
        lemma_part_here(parts, k);
        text_laws::decimal_reads_back(part.number);
        assert(writable(part));
        assert(s[n] == s.subrange(n, n + part_text(part).len())[0]);
        if part.gap.len() > 0 {
            assert(part_text(part)[0] == part.gap[0]);
            assert(text::is_space(part.gap[0]));
        } else {
            assert(part_text(part)[0] == digits[0]);
            assert(text::is_digit(digits[0]));
        }
    }
}

/// A scale that writes numbers with their units is moderate exactly where there
/// is one of them, or where their nanoseconds together, with the numbers rounded
/// up, stay below 2 to the 64th seconds.
pub proof fn scales_are_moderate_where_their_sum_is(parts: Seq<Part>)
    requires
        forall|i: int| 0 <= i < parts.len() ==> writable(#[trigger] parts[i]),
    ensures
        scale::nanos_bound(parts_text(parts), parts_text(parts).len() as int) == sum_of(parts),
        scale::moderate(parts_text(parts)) <==> parts.len() <= 1 || sum_of(parts)
            < 0x1_0000_0000_0000_0000 * 1_000_000_000,
{
    let s = parts_text(parts);
    lemma_scan(parts, parts.len() as int);
    assert(parts.take(parts.len() as int) =~= parts);
    if parts.len() >= 2 {
        let (i, j) = choose|i: int, j: int|
            0 <= i < j < s.len() && #[trigger] scale::unit_begins(s, i)
                && #[trigger] scale::unit_begins(s, j);
        assert(!scale::single_unit(s));
    } else if parts.len() == 1 {
        let at = choose|at: int|
            0 <= at < s.len() && #[trigger] scale::unit_begins(s, at) && forall|j: int|
                0 <= j < s.len() && j != at ==> !#[trigger] scale::unit_begins(s, j);
        assert(scale::single_unit(s));
    } else {
        assert(scale::single_unit(s));
    }
}

} // verus!
