//! Fixed-width little-endian integers, as the payloads of records carry
//! them.

use vstd::prelude::*;

verus! {

/// The four bytes of `n`, least significant first. Numbers are taken modulo
/// 2^32.
pub open spec fn u32_le(n: nat) -> Seq<u8> {
    seq![
        (n % 0x100) as u8,
        ((n / 0x100) % 0x100) as u8,
        ((n / 0x1_0000) % 0x100) as u8,
        ((n / 0x100_0000) % 0x100) as u8,
    ]
}

/// The number that four bytes stand for, least significant first.
pub open spec fn u32_value(b: Seq<u8>) -> nat
    recommends
        b.len() == 4,
{
    (b[0] as nat) + (b[1] as nat) * 0x100 + (b[2] as nat) * 0x1_0000 + (b[3] as nat) * 0x100_0000
}

/// The eight bytes of `n`, least significant first. Numbers are taken modulo
/// 2^64.
pub open spec fn u64_le(n: nat) -> Seq<u8> {
    u32_le(n % 0x1_0000_0000) + u32_le(n / 0x1_0000_0000)
}

/// The number that eight bytes stand for, least significant first.
pub open spec fn u64_value(b: Seq<u8>) -> nat
    recommends
        b.len() == 8,
{
    u32_value(b.subrange(0, 4)) + u32_value(b.subrange(4, 8)) * 0x1_0000_0000
}

/// The digits of a number in base 256 are found again by division.
proof fn lemma_digits(b0: nat, b1: nat, b2: nat, b3: nat)
    requires
        b0 < 0x100,
        b1 < 0x100,
        b2 < 0x100,
        b3 < 0x100,
    ensures
        ({
            let v = b0 + b1 * 0x100 + b2 * 0x1_0000 + b3 * 0x100_0000;
            &&& v <= u32::MAX
            &&& v % 0x100 == b0
            &&& (v / 0x100) % 0x100 == b1
            &&& (v / 0x1_0000) % 0x100 == b2
            &&& (v / 0x100_0000) % 0x100 == b3
        }),
{
    let v = b0 + b1 * 0x100 + b2 * 0x1_0000 + b3 * 0x100_0000;
    let v1 = b1 + b2 * 0x100 + b3 * 0x1_0000;
    let v2 = b2 + b3 * 0x100;
    assert(v == b0 + v1 * 0x100);
    assert(v / 0x100 == v1 && v % 0x100 == b0);
    assert(v1 == b1 + v2 * 0x100);
    assert(v1 / 0x100 == v2 && v1 % 0x100 == b1);
    assert(v2 / 0x100 == b3 && v2 % 0x100 == b2);
    assert(v / 0x1_0000 == v2);
    assert(v / 0x100_0000 == b3);
}

/// A number below 2^32 is the sum of its digits in base 256.
proof fn lemma_sum_of_digits(n: nat)
    requires
        n <= u32::MAX,
    ensures
        n == (n % 0x100) + ((n / 0x100) % 0x100) * 0x100 + ((n / 0x1_0000) % 0x100) * 0x1_0000 + ((n
            / 0x100_0000) % 0x100) * 0x100_0000,
{
    let n1 = n / 0x100;
    let n2 = n1 / 0x100;
    let n3 = n2 / 0x100;
    assert(n == n % 0x100 + n1 * 0x100);
    assert(n1 == n1 % 0x100 + n2 * 0x100);
    assert(n2 == n2 % 0x100 + n3 * 0x100);
    assert(n2 == n / 0x1_0000);
    assert(n3 == n / 0x100_0000);
    assert(n3 < 0x100);
}

/// Four bytes and the number they stand for determine each other.
pub proof fn lemma_u32_round_trip(n: nat, b: Seq<u8>)
    ensures
        u32_le(n).len() == 4,
        n <= u32::MAX ==> u32_value(u32_le(n)) == n,
        b.len() == 4 ==> u32_value(b) <= u32::MAX && u32_le(u32_value(b)) == b,
{
    if n <= u32::MAX {
        lemma_sum_of_digits(n);
    }
    if b.len() == 4 {
        lemma_digits(b[0] as nat, b[1] as nat, b[2] as nat, b[3] as nat);
        assert(u32_le(u32_value(b)) =~= b);
    }
}

/// A number is found again from its low and high halves.
proof fn lemma_halves(lo: nat, hi: nat)
    requires
        lo < 0x1_0000_0000,
    ensures
        (lo + hi * 0x1_0000_0000) % 0x1_0000_0000 == lo,
        (lo + hi * 0x1_0000_0000) / 0x1_0000_0000 == hi,
{
}

/// The eight bytes of a number below 2^64 stand for that number.
proof fn lemma_u64_of_value(n: nat)
    requires
        n <= u64::MAX,
    ensures
        u64_value(u64_le(n)) == n,
{
    let lo = n % 0x1_0000_0000;
    let hi = n / 0x1_0000_0000;
    assert(hi <= u32::MAX);
    lemma_u32_round_trip(lo, Seq::empty());
    lemma_u32_round_trip(hi, Seq::empty());
    assert(u64_le(n).subrange(0, 4) =~= u32_le(lo));
    assert(u64_le(n).subrange(4, 8) =~= u32_le(hi));
}

/// Eight bytes are the bytes of the number they stand for.
proof fn lemma_u64_of_bytes(b: Seq<u8>)
    requires
        b.len() == 8,
    ensures
        u64_value(b) <= u64::MAX,
        u64_le(u64_value(b)) == b,
{
    let low = b.subrange(0, 4);
    let high = b.subrange(4, 8);
    lemma_u32_round_trip(0, low);
    lemma_u32_round_trip(0, high);
    let vlo = u32_value(low);
    let vhi = u32_value(high);
    lemma_halves(vlo, vhi);
    assert(u64_le(u64_value(b)) == u32_le(vlo) + u32_le(vhi));
    assert(low + high =~= b);
}

/// Eight bytes and the number they stand for determine each other.
pub proof fn lemma_u64_round_trip(n: nat, b: Seq<u8>)
    ensures
        u64_le(n).len() == 8,
        n <= u64::MAX ==> u64_value(u64_le(n)) == n,
        b.len() == 8 ==> u64_value(b) <= u64::MAX && u64_le(u64_value(b)) == b,
{
    if n <= u64::MAX {
        lemma_u64_of_value(n);
    }
    if b.len() == 8 {
        lemma_u64_of_bytes(b);
    }
}

/// Appends the four bytes of `n`.
pub fn put_u32(out: &mut Vec<u8>, n: u32)
    ensures
        final(out)@ == old(out)@ + u32_le(n as nat),
{
    out.push((n % 0x100) as u8);
    out.push(((n / 0x100) % 0x100) as u8);
    out.push(((n / 0x1_0000) % 0x100) as u8);
    out.push(((n / 0x100_0000) % 0x100) as u8);
    assert(out@ =~= old(out)@ + u32_le(n as nat));
}

/// Appends the eight bytes of `n`.
pub fn put_u64(out: &mut Vec<u8>, n: u64)
    ensures
        final(out)@ == old(out)@ + u64_le(n as nat),
{
    put_u32(out, (n % 0x1_0000_0000) as u32);
    put_u32(out, (n / 0x1_0000_0000) as u32);
    assert(out@ =~= old(out)@ + u64_le(n as nat));
}

/// Reads four bytes at `at`, if the buffer holds them.
pub fn get_u32(b: &[u8], at: usize) -> (r: Option<u32>)
    ensures
        match r {
            Some(n) => at + 4 <= b@.len() && u32_le(n as nat) == b@.subrange(at as int, at + 4),
            None => at + 4 > b@.len(),
        },
{
    if b.len() < 4 || b.len() - 4 < at {
        return None;
    }
    let b0: u32 = b[at] as u32;
    let b1: u32 = b[at + 1] as u32;
    let b2: u32 = b[at + 2] as u32;
    let b3: u32 = b[at + 3] as u32;
    proof {
        lemma_digits(b0 as nat, b1 as nat, b2 as nat, b3 as nat);
    }
    let n: u32 = b0 + b1 * 0x100 + b2 * 0x1_0000 + b3 * 0x100_0000;
    assert(u32_le(n as nat) =~= b@.subrange(at as int, at + 4));
    Some(n)
}

/// Reads eight bytes at `at`, if the buffer holds them.
pub fn get_u64(b: &[u8], at: usize) -> (r: Option<u64>)
    ensures
        match r {
            Some(n) => at + 8 <= b@.len() && u64_le(n as nat) == b@.subrange(at as int, at + 8),
            None => at + 8 > b@.len(),
        },
{
    if b.len() < 8 || b.len() - 8 < at {
        return None;
    }
    let lo = get_u32(b, at);
    let hi = get_u32(b, at + 4);
    match (lo, hi) {
        (Some(lo), Some(hi)) => {
            let n: u64 = (lo as u64) + (hi as u64) * 0x1_0000_0000;
            assert(u64_le(n as nat) =~= b@.subrange(at as int, at + 4) + b@.subrange(
                at + 4,
                at + 8,
            ));
            assert(b@.subrange(at as int, at + 4) + b@.subrange(at + 4, at + 8) =~= b@.subrange(
                at as int,
                at + 8,
            ));
            Some(n)
        },
        _ => None,
    }
}

/// Reads an index at `at`: eight bytes that stand for a number which is an
/// index on this machine. There is none where the buffer is too short or
/// the number too large.
pub fn get_usize(b: &[u8], at: usize) -> (r: Option<usize>)
    ensures
        match r {
            Some(n) => at + 8 <= b@.len() && u64_le(n as nat) == b@.subrange(at as int, at + 8),
            None => forall|n: usize|
                !(at + 8 <= b@.len() && #[trigger] u64_le(n as nat) == b@.subrange(
                    at as int,
                    at + 8,
                )),
        },
{
    match get_u64(b, at) {
        Some(n) => {
            if n <= usize::MAX as u64 {
                Some(n as usize)
            } else {
                assert forall|i: usize|
                    !(at + 8 <= b@.len() && #[trigger] u64_le(i as nat) == b@.subrange(
                        at as int,
                        at + 8,
                    )) by {
                    lemma_u64_round_trip(i as nat, Seq::empty());
                    lemma_u64_round_trip(n as nat, Seq::empty());
                }
                None
            }
        },
        None => None,
    }
}


/// The sixteen bytes of `n`, least significant first. Numbers are taken
/// modulo 2^128.
pub open spec fn u128_le(n: nat) -> Seq<u8> {
    u64_le(n % 0x1_0000_0000_0000_0000) + u64_le(n / 0x1_0000_0000_0000_0000)
}

/// A number below 2^128 is found again from its sixteen bytes: numbers with
/// the same bytes are the same.
pub proof fn lemma_u128_same_bytes(a: nat, b: nat)
    requires
        a <= u128::MAX,
        b <= u128::MAX,
        u128_le(a) == u128_le(b),
    ensures
        a == b,
{
    let alo = a % 0x1_0000_0000_0000_0000;
    let ahi = a / 0x1_0000_0000_0000_0000;
    let blo = b % 0x1_0000_0000_0000_0000;
    let bhi = b / 0x1_0000_0000_0000_0000;
    lemma_u64_round_trip(alo, Seq::empty());
    lemma_u64_round_trip(ahi, Seq::empty());
    lemma_u64_round_trip(blo, Seq::empty());
    lemma_u64_round_trip(bhi, Seq::empty());
    assert(u128_le(a).subrange(0, 8) =~= u64_le(alo));
    assert(u128_le(a).subrange(8, 16) =~= u64_le(ahi));
    assert(u128_le(b).subrange(0, 8) =~= u64_le(blo));
    assert(u128_le(b).subrange(8, 16) =~= u64_le(bhi));
    assert(alo == blo);
    assert(ahi == bhi);
}

} // verus!
