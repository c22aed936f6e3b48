//! Time scales as users write them, such as `10ms` or `1h 30min`.

use crate::text::{self, chars_of, is_whitespace};
use vstd::prelude::*;

verus! {

/// The error of humantime's parser, carried as it is.
#[verifier::external_type_specification]
#[verifier::external_body]
pub struct ExDurationError(humantime::DurationError);

/// How many nanoseconds a text stands for as `humantime::parse_duration` reads
/// it, or the error where it stands for no duration.
pub uninterp spec fn parsed_nanos(text: Seq<char>) -> Result<u128, humantime::DurationError>;

/// The number that the first `n` characters of a text end with. White space may
/// stand between its digits.
pub open spec fn current(text: Seq<char>, n: int) -> nat
    decreases n,
{
    if n <= 0 {
        0
    } else if text::is_digit(text[n - 1]) {
        10 * current(text, n - 1) + (text[n - 1] as nat - 48) as nat
    } else if text::is_space(text[n - 1]) {
        current(text, n - 1)
    } else {
        0
    }
}

/// Tells whether a character can stand in a unit.
pub open spec fn is_letter(c: char) -> bool {
    'a' <= c <= 'z' || 'A' <= c <= 'Z' || c == 'µ'
}

/// Tells whether a unit begins at a place of a text.
pub open spec fn unit_begins(text: Seq<char>, i: int) -> bool {
    is_letter(text[i]) && (i == 0 || !is_letter(text[i - 1]))
}

/// Tells whether the number that the first `n` characters of a text end with is
/// a fraction: a decimal point stands before it.
pub open spec fn in_fraction(text: Seq<char>, n: int) -> bool
    decreases n,
{
    if n <= 0 {
        false
    } else if text::is_digit(text[n - 1]) || text::is_space(text[n - 1]) {
        in_fraction(text, n - 1)
    } else {
        text[n - 1] == '.'
    }
}

/// No less than what the number that the first `n` characters of a text end with
/// stands for, in whole units. A fraction is less than one.
pub open spec fn amount(text: Seq<char>, n: int) -> nat {
    if !in_fraction(text, n) {
        current(text, n)
    } else if current(text, n) > 0 {
        1
    } else {
        0
    }
}

/// No less than the numbers among the first `n` characters of a text stand for
/// that wait for their unit, but for the number that the characters end with.
/// There is one of them where a number has a fraction.
pub open spec fn waiting(text: Seq<char>, n: int) -> nat
    decreases n,
{
    if n <= 0 || unit_begins(text, n - 1) {
        0
    } else if text::is_digit(text[n - 1]) || text::is_space(text[n - 1]) {
        waiting(text, n - 1)
    } else {
        waiting(text, n - 1) + amount(text, n - 1)
    }
}

/// Tells whether `c` stands in a text at a place, and the place is there.
pub open spec fn stands_at(text: Seq<char>, i: int, c: char) -> bool {
    i < text.len() && text[i] == c
}

/// The nanoseconds of the unit at a place of a text, told by its first letters.
/// No unit is larger than a year.
pub open spec fn unit_nanos(text: Seq<char>, i: int) -> nat {
    let c = text[i];
    if c == 'n' {
        1
    } else if c == 'u' || c == 'µ' {
        1_000
    } else if c == 'm' && (stands_at(text, i + 1, 's') || stands_at(text, i + 1, 'i')
        && stands_at(text, i + 2, 'l')) {
        1_000_000
    } else if c == 's' {
        1_000_000_000
    } else if c == 'M' || c == 'm' && stands_at(text, i + 1, 'o') {
        2_630_016_000_000_000
    } else if c == 'm' {
        60_000_000_000
    } else if c == 'h' {
        3_600_000_000_000
    } else if c == 'd' {
        86_400_000_000_000
    } else if c == 'w' {
        604_800_000_000_000
    } else {
        31_557_600_000_000_000
    }
}

/// No fewer nanoseconds than the first `n` characters of a text add up to.
pub open spec fn nanos_bound(text: Seq<char>, n: int) -> nat
    decreases n,
{
    if n <= 0 {
        0
    } else if unit_begins(text, n - 1) {
        nanos_bound(text, n - 1) + (waiting(text, n - 1) + amount(text, n - 1)) * unit_nanos(
            text,
            n - 1,
        )
    } else {
        nanos_bound(text, n - 1)
    }
}

/// One nanosecond more than the largest duration.
pub const TOO_MANY_NANOS: u128 = 18_446_744_073_709_551_616_000_000_000;

/// No more than one unit stands in a text.
pub open spec fn single_unit(text: Seq<char>) -> bool {
    forall|i: int, j: int|
        0 <= i < j < text.len() && #[trigger] unit_begins(text, i) ==> !#[trigger] unit_begins(
            text,
            j,
        )
}

/// A text writes one number with its unit, or several that do not go beyond the
/// largest duration.
pub open spec fn moderate(text: Seq<char>) -> bool {
    single_unit(text) || nanos_bound(text, text.len() as int) < TOO_MANY_NANOS
}

/// Calls `humantime::parse_duration` and takes the nanoseconds of the duration.
/// The parser adds up numbers with units and panics where a sum of several comes
/// to the largest number of seconds with a whole second of nanoseconds beside it;
/// a text that is not moderate is therefore left out. The contract only gives the
/// result a name: the parser's grammar and units are not written out.
#[verifier::external_body]
fn parse_duration_nanos(text: &str) -> (result: Result<u128, humantime::DurationError>)
    requires
        moderate(text@),
    ensures
        result == parsed_nanos(text@),
{
    match humantime::parse_duration(text) {
        Ok(duration) => Ok(duration.as_nanos()),
        Err(err) => Err(err),
    }
}

fn has_single_unit(text: &[char]) -> (yes: bool)
    ensures
        yes == single_unit(text@),
{
    let mut unit: Option<usize> = None;
    let mut inside: bool = false;
    let mut i: usize = 0;
    while i < text.len()
        invariant
            i <= text@.len(),
            inside == (i > 0 && is_letter(text@[i - 1])),
            match unit {
                Some(at) => {
                    &&& at < i
                    &&& unit_begins(text@, at as int)
                    &&& forall|j: int|
                        0 <= j < i && j != at ==> !#[trigger] unit_begins(text@, j)
                },
                None => forall|j: int| 0 <= j < i ==> !#[trigger] unit_begins(text@, j),
            },
        decreases text@.len() - i,
    {
        let c = text[i];
        let letter = ('a' <= c && c <= 'z') || ('A' <= c && c <= 'Z') || c == 'µ';
        assert((letter && !inside) == unit_begins(text@, i as int));
        if letter && !inside {
            if unit.is_some() {
                return false;
            }
            unit = Some(i);
        }
        inside = letter;
        i = i + 1;
    }
    true
}

/// A number, or the least that is too large where it is not smaller.
spec fn capped(n: nat) -> nat {
    if n < TOO_MANY_NANOS {
        n
    } else {
        TOO_MANY_NANOS as nat
    }
}

fn cap(n: u128) -> (capped_n: u128)
    ensures
        capped_n == capped(n as nat),
{
    if n < TOO_MANY_NANOS {
        n
    } else {
        TOO_MANY_NANOS
    }
}

fn cap_product(a: u128, b: u128) -> (product: u128)
    ensures
        product == capped((a * b) as nat),
{
    match a.checked_mul(b) {
        Some(product) => cap(product),
        None => TOO_MANY_NANOS,
    }
}

proof fn lemma_capped_weight(a: nat, b: nat, weight: nat)
    requires
        weight >= 1,
    ensures
        capped(a + b * weight) == capped(capped(a) + capped(capped(b) * weight)),
{
    assert(b * weight >= b) by (nonlinear_arith)
        requires
            weight >= 1,
    ;
    assert(capped(b) * weight >= capped(b)) by (nonlinear_arith)
        requires
            weight >= 1,
    ;
}

fn find_unit_nanos(text: &[char], i: usize) -> (nanos: u128)
    requires
        i < text@.len(),
    ensures
        nanos == unit_nanos(text@, i as int),
{
    let c = text[i];
    let rest: usize = text.len() - i;
    if c == 'n' {
        1
    } else if c == 'u' || c == 'µ' {
        1_000
    } else if c == 'm' && (rest > 1 && text[i + 1] == 's' || rest > 2 && text[i + 1] == 'i'
        && text[i + 2] == 'l') {
        1_000_000
    } else if c == 's' {
        1_000_000_000
    } else if c == 'M' || c == 'm' && rest > 1 && text[i + 1] == 'o' {
        2_630_016_000_000_000
    } else if c == 'm' {
        60_000_000_000
    } else if c == 'h' {
        3_600_000_000_000
    } else if c == 'd' {
        86_400_000_000_000
    } else if c == 'w' {
        604_800_000_000_000
    } else {
        31_557_600_000_000_000
    }
}

/// Tells whether what a text adds up to stays below what a duration can hold.
fn is_bounded(text: &[char]) -> (yes: bool)
    ensures
        yes == (nanos_bound(text@, text@.len() as int) < TOO_MANY_NANOS),
{
    let mut total: u128 = 0;
    let mut wait: u128 = 0;
    let mut number: u128 = 0;
    let mut fraction: bool = false;
    let mut inside: bool = false;
    let mut i: usize = 0;
    while i < text.len()
        invariant
            i <= text@.len(),
            inside == (i > 0 && is_letter(text@[i - 1])),
            fraction == in_fraction(text@, i as int),
            total == capped(nanos_bound(text@, i as int)),
            wait == capped(waiting(text@, i as int)),
            number == capped(current(text@, i as int)),
        decreases text@.len() - i,
    {
        let c = text[i];
        let letter = ('a' <= c && c <= 'z') || ('A' <= c && c <= 'Z') || c == 'µ';
        let digit = '0' <= c && c <= '9';
        assert((letter && !inside) == unit_begins(text@, i as int));
        let amount: u128 = if !fraction {
            number
        } else if number > 0 {
            1
        } else {
            0
        };
        assert(amount == capped(self::amount(text@, i as int)));
        if letter && !inside {
            let held: u128 = cap(wait + amount);
            let nanos: u128 = find_unit_nanos(text, i);
            proof {
                let all = waiting(text@, i as int) + self::amount(text@, i as int);
                assert(held == capped(all));
                lemma_capped_weight(
                    nanos_bound(text@, i as int),
                    all,
                    unit_nanos(text@, i as int),
                );
            }
            total = cap(total + cap_product(held, nanos));
            wait = 0;
            number = 0;
            fraction = false;
        } else if digit {
            number = cap(10 * number + (c as u128 - 48));
        } else if !is_whitespace(c) {
            wait = cap(wait + amount);
            number = 0;
            fraction = c == '.';
        }
        inside = letter;
        i = i + 1;
    }
    total < TOO_MANY_NANOS
}

/// Tells whether a text writes one number with its unit, or several that do not
/// go beyond the largest duration.
pub fn is_moderate(scale: &str) -> (yes: bool)
    ensures
        yes == moderate(scale@),
{
    let chars = chars_of(scale);
    has_single_unit(chars.as_slice()) || is_bounded(chars.as_slice())
}

/// Why a text is no time scale.
#[derive(Debug)]
pub enum ScaleError {
    /// The text does not stand for a duration.
    Invalid(humantime::DurationError),
    /// The scale is zero.
    Zero,
    /// The scale has too many nanoseconds.
    TooLarge,
    /// The numbers of the text may go beyond the largest duration. It was not
    /// read.
    Immoderate,
}

/// Makes a scale of a number of nanoseconds. It must be more than none and fit
/// sixty-four bits.
pub fn scale_from_nanos(nanos: u128) -> (result: Result<u64, ScaleError>)
    ensures
        match result {
            Ok(scale) => scale == nanos && scale > 0,
            Err(ScaleError::Zero) => nanos == 0,
            Err(ScaleError::TooLarge) => nanos > u64::MAX,
            Err(ScaleError::Invalid(_)) => false,
            Err(ScaleError::Immoderate) => false,
        },
{
    if nanos == 0 {
        return Err(ScaleError::Zero);
    }
    if nanos > u64::MAX as u128 {
        return Err(ScaleError::TooLarge);
    }
    Ok(nanos as u64)
}

/// Reads a time scale, in nanoseconds.
pub fn parse_scale_ns(scale: &str) -> (result: Result<u64, ScaleError>)
    requires
        moderate(scale@),
    ensures
        match parsed_nanos(scale@) {
            Ok(nanos) => match result {
                Ok(ns) => ns == nanos && ns > 0,
                Err(ScaleError::Zero) => nanos == 0,
                Err(ScaleError::TooLarge) => nanos > u64::MAX,
                Err(ScaleError::Invalid(_)) => false,
                Err(ScaleError::Immoderate) => false,
            },
            Err(err) => result == Err::<u64, ScaleError>(ScaleError::Invalid(err)),
        },
{
    match parse_duration_nanos(scale) {
        Ok(nanos) => scale_from_nanos(nanos),
        Err(err) => Err(ScaleError::Invalid(err)),
    }
}

/// Reads a time scale, in nanoseconds, from any text. One that is not moderate is
/// refused without being read.
pub fn checked_scale_ns(scale: &str) -> (result: Result<u64, ScaleError>)
    ensures
        !moderate(scale@) ==> result == Err::<u64, ScaleError>(ScaleError::Immoderate),
        moderate(scale@) ==> match parsed_nanos(scale@) {
            Ok(nanos) => match result {
                Ok(ns) => ns == nanos && ns > 0,
                Err(ScaleError::Zero) => nanos == 0,
                Err(ScaleError::TooLarge) => nanos > u64::MAX,
                Err(ScaleError::Invalid(_)) => false,
                Err(ScaleError::Immoderate) => false,
            },
            Err(err) => result == Err::<u64, ScaleError>(ScaleError::Invalid(err)),
        },
{
    if is_moderate(scale) {
        parse_scale_ns(scale)
    } else {
        Err(ScaleError::Immoderate)
    }
}

} // verus!
