//! Numbers cut to a narrower type, and numbers as little-endian bytes.

use vstd::prelude::*;

verus! {

/// The low 8 bits of a number.
pub fn low_u8(x: u32) -> (r: u8)
    ensures
        r == x % 0x100,
{
    assert(#[verifier::truncate] (x as u8) == x % 0x100) by (bit_vector);
    #[verifier::truncate]
    (x as u8)
}

/// The low 16 bits of a number.
pub fn low_u16(x: usize) -> (r: u16)
    ensures
        r == x % 0x1_0000,
{
    assert(#[verifier::truncate] (x as u16) == x % 0x1_0000) by (bit_vector);
    #[verifier::truncate]
    (x as u16)
}

/// The low 32 bits of a number.
pub fn low_u32(x: usize) -> (r: u32)
    ensures
        r as int == x as int % 0x1_0000_0000,
{
    let y: u64 = x as u64;
    assert(#[verifier::truncate] (y as u32) == y % 0x1_0000_0000) by (bit_vector);
    #[verifier::truncate]
    (y as u32)
}

/// How many numbers can be written with the given count of bytes.
pub open spec fn power(n: nat) -> nat
    decreases n,
{
    if n == 0 {
        1
    } else {
        256 * power((n - 1) as nat)
    }
}

/// The number that bytes stand for, the lowest byte first.
pub open spec fn le(b: Seq<u8>) -> nat
    decreases b.len(),
{
    if b.len() == 0 {
        0
    } else {
        b[0] as nat + 256 * le(b.drop_first())
    }
}

/// A number as the given count of bytes, the lowest byte first.
pub open spec fn to_le(x: nat, n: nat) -> Seq<u8>
    decreases n,
{
    if n == 0 {
        seq![]
    } else {
        seq![(x % 256) as u8] + to_le(x / 256, (n - 1) as nat)
    }
}

/// A signed 64-bit number as an unsigned one, in two's complement.
pub open spec fn unsigned(x: i64) -> nat {
    if x >= 0 {
        x as nat
    } else {
        (x + 0x1_0000_0000_0000_0000) as nat
    }
}

/// The signed 64-bit number that an unsigned one stands for in two's complement.
pub open spec fn signed(x: nat) -> i64 {
    if x < 0x8000_0000_0000_0000 {
        x as i64
    } else {
        (x - 0x1_0000_0000_0000_0000) as i64
    }
}

pub proof fn lemma_power()
    ensures
        power(1) == 0x100,
        power(2) == 0x1_0000,
        power(4) == 0x1_0000_0000,
        power(8) == 0x1_0000_0000_0000_0000,
{
    reveal_with_fuel(power, 9);
}

pub proof fn lemma_to_le_len(x: nat, n: nat)
    ensures
        to_le(x, n).len() == n,
    decreases n,
{
    if n > 0 {
        lemma_to_le_len(x / 256, (n - 1) as nat);
    }
}

pub proof fn lemma_le_bound(b: Seq<u8>)
    ensures
        le(b) < power(b.len()),
    decreases b.len(),
{
    if b.len() > 0 {
        lemma_le_bound(b.drop_first());
    }
}

/// A number that was written as bytes is read back.
pub proof fn law_le_round_trip(x: nat, n: nat)
    requires
        x < power(n),
    ensures
        le(to_le(x, n)) == x,
        to_le(x, n).len() == n,
    decreases n,
{
    if n > 0 {
        law_le_round_trip(x / 256, (n - 1) as nat);
        let b = to_le(x, n);
        assert(b.drop_first() =~= to_le(x / 256, (n - 1) as nat));
    }
}

/// A signed number that was written in two's complement is read back.
pub proof fn law_signed_round_trip(x: i64)
    ensures
        signed(unsigned(x)) == x,
        unsigned(x) <= u64::MAX,
{
}

/// Appends a number as bytes, the lowest first.
pub fn put(out: &mut Vec<u8>, x: u64, n: usize)
    ensures
        final(out)@ == old(out)@ + to_le(x as nat, n as nat),
{
    let ghost all = out@ + to_le(x as nat, n as nat);
    let mut rest: u64 = x;
    let mut left: usize = n;
    while left > 0
        invariant
            all == out@ + to_le(rest as nat, left as nat),
        decreases left,
    {
        let ghost had = out@;
        let ghost was = rest as nat;
        out.push((rest % 256) as u8);
        rest = rest / 256;
        left = left - 1;
        assert(had + (seq![(was % 256) as u8] + to_le(rest as nat, left as nat)) =~= out@ + to_le(
            rest as nat,
            left as nat,
        ));
    }
    assert(out@ + Seq::<u8>::empty() =~= out@);
}

/// Reads the number that stands in `n` bytes from a place on.
pub fn get(b: &[u8], at: usize, n: usize) -> (r: u64)
    requires
        at + n <= b@.len(),
        n <= 8,
    ensures
        r == le(b@.subrange(at as int, at + n)),
        r < power(n as nat),
{
    let mut acc: u64 = 0;
    let mut k: usize = n;
    assert(b@.subrange(at + n, at + n) =~= seq![]);
    while k > 0
        invariant
            k <= n <= 8,
            at + n <= b@.len(),
            acc == le(b@.subrange(at + k, at + n)),
        decreases k,
    {
        let ghost part = b@.subrange(at + k - 1, at + n);
        proof {
            assert(part.drop_first() =~= b@.subrange(at + k, at + n));
            lemma_le_bound(part);
            lemma_power_grows(part.len(), 8);
            lemma_power();
        }
        assert(b.len() <= usize::MAX);
        k = k - 1;
        acc = b[at + k] as u64 + 256 * acc;
    }
    proof {
        lemma_le_bound(b@.subrange(at as int, at + n));
    }
    acc
}

proof fn lemma_power_grows(m: nat, n: nat)
    requires
        m <= n,
    ensures
        power(m) <= power(n),
    decreases n,
{
    if m < n {
        lemma_power_grows(m, (n - 1) as nat);
    }
}

/// The number that stands in `n` bytes from a place on.
pub open spec fn number_at(b: Seq<u8>, at: int, n: int) -> nat {
    le(b.subrange(at, at + n))
}

/// UTF-16 units read from a place on.
pub open spec fn units_at(b: Seq<u8>, at: int, n: nat) -> Seq<u16> {
    Seq::new(n, |i: int| number_at(b, at + i * 2, 2) as u16)
}

/// Reads UTF-16 units.
pub fn read_units(b: &[u8], at: usize, n: usize) -> (r: Vec<u16>)
    requires
        at + n * 2 <= b@.len(),
    ensures
        r@ == units_at(b@, at as int, n as nat),
{
    let mut out: Vec<u16> = Vec::new();
    assert(b.len() <= usize::MAX);
    for i in 0..n
        invariant
            at + n * 2 <= b@.len() <= usize::MAX,
            out@ == units_at(b@, at as int, i as nat),
    {
        proof {
            lemma_power();
        }
        out.push(get(b, at + i * 2, 2) as u16);
        assert(out@ =~= units_at(b@, at as int, (i + 1) as nat));
    }
    out
}

/// A signed number as an unsigned one, in two's complement.
pub fn to_unsigned(x: i64) -> (r: u64)
    ensures
        r == unsigned(x),
{
    if x >= 0 {
        x as u64
    } else {
        (x as i128 + 0x1_0000_0000_0000_0000) as u64
    }
}

/// The signed number that an unsigned one stands for in two's complement.
pub fn to_signed(x: u64) -> (r: i64)
    ensures
        r == signed(x as nat),
{
    if x < 0x8000_0000_0000_0000 {
        x as i64
    } else {
        (x as i128 - 0x1_0000_0000_0000_0000) as i64
    }
}

/// Where one byte is another, the number is another.
pub proof fn lemma_le_differs(b: Seq<u8>, i: int, x: u8)
    requires
        0 <= i < b.len(),
        b[i] != x,
    ensures
        le(b.update(i, x)) != le(b),
    decreases b.len(),
{
    let changed = b.update(i, x);
    if i == 0 {
        assert(changed.drop_first() =~= b.drop_first());
    } else {
        assert(changed.drop_first() =~= b.drop_first().update(i - 1, x));
        lemma_le_differs(b.drop_first(), i - 1, x);
    }
}

} // verus!
