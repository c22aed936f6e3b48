//! Little-endian integers in byte sequences.

use vstd::arithmetic::power;
use vstd::prelude::*;

verus! {

/// The number that the bytes of `s` write, least significant first.
pub open spec fn le_value(s: Seq<u8>) -> nat
    decreases s.len(),
{
    if s.len() == 0 {
        0
    } else {
        s[0] as nat + 256 * le_value(s.drop_first())
    }
}

/// The `n` bytes that write `value`, least significant first.
pub open spec fn le_bytes(value: nat, n: nat) -> Seq<u8>
    decreases n,
{
    if n == 0 {
        seq![]
    } else {
        seq![(value % 256) as u8] + le_bytes(value / 256, (n - 1) as nat)
    }
}

/// The 16-bit little-endian number at `at`.
pub open spec fn le16(s: Seq<u8>, at: int) -> u16 {
    le_value(s.subrange(at, at + 2)) as u16
}

/// The 32-bit little-endian number at `at`.
pub open spec fn le32(s: Seq<u8>, at: int) -> u32 {
    le_value(s.subrange(at, at + 4)) as u32
}

/// The 64-bit little-endian number at `at`.
pub open spec fn le64(s: Seq<u8>, at: int) -> u64 {
    le_value(s.subrange(at, at + 8)) as u64
}

/// The two bytes that hold `value`, least significant first.
pub open spec fn le16_bytes(value: u16) -> Seq<u8> {
    le_bytes(value as nat, 2)
}

/// The four bytes that hold `value`, least significant first.
pub open spec fn le32_bytes(value: u32) -> Seq<u8> {
    le_bytes(value as nat, 4)
}

/// The eight bytes that hold `value`, least significant first.
pub open spec fn le64_bytes(value: u64) -> Seq<u8> {
    le_bytes(value as nat, 8)
}

/// There are as many bytes as were asked for.
pub broadcast proof fn lemma_le_bytes_len(value: nat, n: nat)
    ensures
        #[trigger] le_bytes(value, n).len() == n,
    decreases n,
{
    if n > 0 {
        lemma_le_bytes_len(value / 256, (n - 1) as nat);
    }
}

/// A number of a few bytes reads back from the bytes that write it.
pub proof fn lemma_value_of_bytes(value: nat, n: nat)
    requires
        value < power::pow(256, n),
    ensures
        le_value(le_bytes(value, n)) == value,
    decreases n,
{
    if n == 0 {
        power::lemma_pow0(256);
    } else {
        power::lemma_pow1(256);
        power::lemma_pow_adds(256, 1, (n - 1) as nat);
        assert(value / 256 < power::pow(256, (n - 1) as nat));
        lemma_value_of_bytes(value / 256, (n - 1) as nat);
        assert(le_bytes(value, n).drop_first() =~= le_bytes(value / 256, (n - 1) as nat));
    }
}

/// Bytes are those of the number that they write.
pub proof fn lemma_bytes_of_value(s: Seq<u8>)
    ensures
        le_bytes(le_value(s), s.len()) == s,
        le_value(s) < power::pow(256, s.len()),
    decreases s.len(),
{
    if s.len() == 0 {
        power::lemma_pow0(256);
        assert(s =~= seq![]);
    } else {
        power::lemma_pow1(256);
        power::lemma_pow_adds(256, 1, (s.len() - 1) as nat);
        lemma_bytes_of_value(s.drop_first());
        assert(le_bytes(le_value(s), s.len()) =~= s);
    }
}

proof fn lemma_powers()
    ensures
        power::pow(256, 2) == 0x1_0000,
        power::pow(256, 4) == 0x1_0000_0000,
        power::pow(256, 8) == 0x1_0000_0000_0000_0000,
{
    reveal(power::pow);
    reveal_with_fuel(power::pow, 9);
}

/// A number stands at `at` exactly where the bytes that hold it do.
pub proof fn lemma_le16_at(s: Seq<u8>, at: int, value: u16)
    requires
        0 <= at,
        at + 2 <= s.len(),
    ensures
        le16(s, at) == value <==> s.subrange(at, at + 2) == le16_bytes(value),
{
    lemma_powers();
    lemma_bytes_of_value(s.subrange(at, at + 2));
    lemma_value_of_bytes(value as nat, 2);
}

/// A number stands at `at` exactly where the bytes that hold it do.
pub proof fn lemma_le32_at(s: Seq<u8>, at: int, value: u32)
    requires
        0 <= at,
        at + 4 <= s.len(),
    ensures
        le32(s, at) == value <==> s.subrange(at, at + 4) == le32_bytes(value),
{
    lemma_powers();
    lemma_bytes_of_value(s.subrange(at, at + 4));
    lemma_value_of_bytes(value as nat, 4);
}

/// A number stands at `at` exactly where the bytes that hold it do.
pub proof fn lemma_le64_at(s: Seq<u8>, at: int, value: u64)
    requires
        0 <= at,
        at + 8 <= s.len(),
    ensures
        le64(s, at) == value <==> s.subrange(at, at + 8) == le64_bytes(value),
{
    lemma_powers();
    lemma_bytes_of_value(s.subrange(at, at + 8));
    lemma_value_of_bytes(value as nat, 8);
}

proof fn lemma_value_in_two(a: Seq<u8>, b: Seq<u8>)
    ensures
        le_value(a + b) == le_value(a) + power::pow(256, a.len()) * le_value(b),
    decreases a.len(),
{
    if a.len() == 0 {
        power::lemma_pow0(256);
        assert(a + b =~= b);
    } else {
        power::lemma_pow1(256);
        power::lemma_pow_adds(256, 1, (a.len() - 1) as nat);
        lemma_value_in_two(a.drop_first(), b);
        assert((a + b).drop_first() =~= a.drop_first() + b);
        let p = power::pow(256, (a.len() - 1) as nat);
        let v = le_value(b) as int;
        assert(256 * (p * v) == (256 * p) * v) by (nonlinear_arith);
    }
}

/// Reads the 16-bit little-endian number at `at`.
pub fn read_le16(bytes: &[u8], at: usize) -> (value: u16)
    requires
        at + 2 <= bytes.len(),
    ensures
        value == le16(bytes@, at as int),
{
    proof {
        reveal_with_fuel(le_value, 3);
        let s = bytes@.subrange(at as int, at + 2);
        assert(s.drop_first()[0] == bytes@[at + 1]);
    }
    bytes[at] as u16 + 256 * (bytes[at + 1] as u16)
}

/// Reads the 32-bit little-endian number at `at`.
pub fn read_le32(bytes: &[u8], at: usize) -> (value: u32)
    requires
        at + 4 <= bytes.len(),
    ensures
        value == le32(bytes@, at as int),
{
    proof {
        lemma_powers();
        let (a, b) = (bytes@.subrange(at as int, at + 2), bytes@.subrange(at + 2, at + 4));
        lemma_bytes_of_value(a);
        lemma_bytes_of_value(b);
        lemma_value_in_two(a, b);
        assert(a + b =~= bytes@.subrange(at as int, at + 4));
    }
    read_le16(bytes, at) as u32 + 65536 * (read_le16(bytes, at + 2) as u32)
}

/// Reads the 64-bit little-endian number at `at`.
pub fn read_le64(bytes: &[u8], at: usize) -> (value: u64)
    requires
        at + 8 <= bytes.len(),
    ensures
        value == le64(bytes@, at as int),
{
    proof {
        lemma_powers();
        let (a, b) = (bytes@.subrange(at as int, at + 4), bytes@.subrange(at + 4, at + 8));
        lemma_bytes_of_value(a);
        lemma_bytes_of_value(b);
        lemma_value_in_two(a, b);
        assert(a + b =~= bytes@.subrange(at as int, at + 8));
    }
    read_le32(bytes, at) as u64 + 4294967296 * (read_le32(bytes, at + 4) as u64)
}

fn push_le(out: &mut Vec<u8>, value: u64, n: u8)
    ensures
        final(out)@ == old(out)@ + le_bytes(value as nat, n as nat),
    decreases n,
{
    if n > 0 {
        out.push((value % 256) as u8);
        push_le(out, value / 256, n - 1);
    }
    assert(out@ =~= old(out)@ + le_bytes(value as nat, n as nat));
}

/// Appends `value` to `out` as two little-endian bytes.
pub fn push_le16(out: &mut Vec<u8>, value: u16)
    ensures
        final(out)@ == old(out)@ + le16_bytes(value),
{
    push_le(out, value as u64, 2);
}

/// Appends `value` to `out` as four little-endian bytes.
pub fn push_le32(out: &mut Vec<u8>, value: u32)
    ensures
        final(out)@ == old(out)@ + le32_bytes(value),
{
    push_le(out, value as u64, 4);
}

/// Appends `value` to `out` as eight little-endian bytes.
pub fn push_le64(out: &mut Vec<u8>, value: u64)
    ensures
        final(out)@ == old(out)@ + le64_bytes(value),
{
    push_le(out, value, 8);
}

} // verus!
