//! Powers of two and other integer helpers.

use vstd::arithmetic::power2;
use vstd::prelude::*;

verus! {

/// `pow2(bits)` lies between 1 and 2^63 when `bits < 64`.
pub proof fn lemma_pow2_fits(bits: nat)
    requires
        bits < 64,
    ensures
        0 < power2::pow2(bits) <= 0x8000_0000_0000_0000,
        bits <= 32 ==> power2::pow2(bits) <= 0x1_0000_0000,
        bits < 32 ==> power2::pow2(bits) <= 0x8000_0000,
        bits > 0 ==> power2::pow2(bits) % 2 == 0,
{
    power2::lemma2_to64();
    power2::lemma2_to64_rest();
    power2::lemma_pow2_pos(bits);
    if bits < 63 {
        power2::lemma_pow2_strictly_increases(bits, 63);
    }
    if bits < 32 {
        power2::lemma_pow2_strictly_increases(bits, 32);
    }
    if bits < 31 {
        power2::lemma_pow2_strictly_increases(bits, 31);
    }
    if bits > 0 {
        power2::lemma_pow2_unfold(bits);
    }
}

/// Two to the power `bits`.
pub fn power_of_two(bits: u8) -> (result: u64)
    requires
        bits < 64,
    ensures
        result == power2::pow2(bits as nat),
{
    proof {
        lemma_pow2_fits(bits as nat);
        vstd::bits::lemma_u64_shl_is_mul(1, bits as u64);
    }
    1u64 << bits
}

/// The node that shares a bucket of two with `node`: its lowest bit flipped.
pub open spec fn mate(node: u32) -> u32 {
    if node % 2 == 0 {
        (node + 1) as u32
    } else {
        (node - 1) as u32
    }
}

/// Flipping the lowest bit twice changes nothing, and once always does.
pub proof fn lemma_mate_is_involution(node: u32)
    ensures
        mate(mate(node)) == node,
        mate(node) != node,
{
}

/// The node with its lowest bit flipped.
pub fn flip(node: u32) -> (result: u32)
    ensures
        result == mate(node),
{
    assert(node ^ 1 == if node % 2 == 0 {
        node + 1
    } else {
        node - 1
    }) by (bit_vector);
    node ^ 1
}

/// A node and its mate lie below the same even bound.
pub proof fn lemma_mate_below(node: u32, bound: nat)
    requires
        node < bound,
        bound % 2 == 0,
    ensures
        mate(node) < bound,
{
}

/// The number that `bytes` writes with its least significant byte first.
pub open spec fn le_value(bytes: Seq<u8>) -> nat
    decreases bytes.len(),
{
    if bytes.len() == 0 {
        0
    } else {
        bytes[0] as nat + 256 * le_value(bytes.skip(1))
    }
}

/// The number that `bytes` writes with its most significant byte first.
pub open spec fn be_value(bytes: Seq<u8>) -> nat
    decreases bytes.len(),
{
    if bytes.len() == 0 {
        0
    } else {
        256 * be_value(bytes.drop_last()) + bytes.last() as nat
    }
}

/// The eight bytes of `value`, most significant first.
pub open spec fn be_bytes(value: u64) -> Seq<u8> {
    seq![
        (value / 0x0100_0000_0000_0000) as u8,
        (value / 0x0001_0000_0000_0000 % 256) as u8,
        (value / 0x0000_0100_0000_0000 % 256) as u8,
        (value / 0x0000_0001_0000_0000 % 256) as u8,
        (value / 0x0000_0000_0100_0000 % 256) as u8,
        (value / 0x0000_0000_0001_0000 % 256) as u8,
        (value / 0x0000_0000_0000_0100 % 256) as u8,
        (value % 256) as u8,
    ]
}

proof fn lemma_be_step(bytes: Seq<u8>, k: int, quotient: nat, divisor: nat, value: nat)
    requires
        0 < k <= bytes.len(),
        divisor > 0,
        quotient == divisor * 256,
        be_value(bytes.take(k - 1)) == value / quotient,
        bytes[k - 1] == value / divisor % 256,
    ensures
        be_value(bytes.take(k)) == value / divisor,
{
    assert(bytes.take(k).drop_last() =~= bytes.take(k - 1));
    vstd::arithmetic::div_mod::lemma_div_denominator(value as int, divisor as int, 256);
    vstd::arithmetic::div_mod::lemma_fundamental_div_mod((value / divisor) as int, 256);
}

/// Writing a number most significant byte first and reading it back gives the
/// number.
pub proof fn lemma_be_round_trip(value: u64)
    ensures
        be_value(be_bytes(value)) == value,
{
    let b = be_bytes(value);
    let v = value as nat;
    assert(be_value(b.take(0)) == 0);
    lemma_be_step(b, 1, 0x1_0000_0000_0000_0000, 0x0100_0000_0000_0000, v);
    lemma_be_step(b, 2, 0x0100_0000_0000_0000, 0x0001_0000_0000_0000, v);
    lemma_be_step(b, 3, 0x0001_0000_0000_0000, 0x0000_0100_0000_0000, v);
    lemma_be_step(b, 4, 0x0000_0100_0000_0000, 0x0000_0001_0000_0000, v);
    lemma_be_step(b, 5, 0x0000_0001_0000_0000, 0x0000_0000_0100_0000, v);
    lemma_be_step(b, 6, 0x0000_0000_0100_0000, 0x0000_0000_0001_0000, v);
    lemma_be_step(b, 7, 0x0000_0000_0001_0000, 0x0000_0000_0000_0100, v);
    lemma_be_step(b, 8, 0x0000_0000_0000_0100, 1, v);
    assert(b.take(8) =~= b);
}

proof fn lemma_le_bound(bytes: Seq<u8>)
    ensures
        le_value(bytes) < power2::pow2(8 * bytes.len()),
    decreases bytes.len(),
{
    power2::lemma2_to64();
    if bytes.len() > 0 {
        lemma_le_bound(bytes.skip(1));
        power2::lemma_pow2_adds(8, 8 * bytes.skip(1).len());
    }
}

/// The 64-bit number at `bytes[start..start + 8]`, least significant byte
/// first.
pub fn read_le(bytes: &[u8], start: usize) -> (value: u64)
    requires
        start + 8 <= bytes.len(),
    ensures
        value == le_value(bytes@.subrange(start as int, start + 8)),
{
    let mut value: u64 = 0;
    let mut left: usize = 8;
    assert(bytes@.subrange(start + 8, start + 8) =~= Seq::<u8>::empty());
    while left > 0
        invariant
            left <= 8,
            start + 8 <= bytes.len(),
            value == le_value(bytes@.subrange(start + left, start + 8)),
        decreases left,
    {
        left = left - 1;
        let ghost tail = bytes@.subrange(start + left, start + 8);
        proof {
            assert(tail.skip(1) =~= bytes@.subrange(start + left + 1, start + 8));
            lemma_le_bound(tail.skip(1));
            power2::lemma2_to64();
            power2::lemma2_to64_rest();
            if tail.skip(1).len() < 7 {
                power2::lemma_pow2_strictly_increases(
                    8 * tail.skip(1).len(),
                    56,
                );
            }
        }
        value = bytes[start + left] as u64 + 256 * value;
    }
    value
}

proof fn lemma_be_bound(bytes: Seq<u8>)
    ensures
        be_value(bytes) < power2::pow2(8 * bytes.len()),
    decreases bytes.len(),
{
    power2::lemma2_to64();
    if bytes.len() > 0 {
        lemma_be_bound(bytes.drop_last());
        power2::lemma_pow2_adds(8, 8 * bytes.drop_last().len());
    }
}

/// The 64-bit number at `bytes[0..8]`, most significant byte first.
pub fn read_be(bytes: &[u8]) -> (value: u64)
    requires
        8 <= bytes.len(),
    ensures
        value == be_value(bytes@.take(8)),
{
    let mut value: u64 = 0;
    let mut done: usize = 0;
    while done < 8
        invariant
            done <= 8 <= bytes.len(),
            value == be_value(bytes@.take(done as int)),
        decreases 8 - done,
    {
        let ghost head = bytes@.take(done + 1);
        proof {
            assert(head.drop_last() =~= bytes@.take(done as int));
            lemma_be_bound(head.drop_last());
            power2::lemma2_to64();
            power2::lemma2_to64_rest();
            if done < 7 {
                power2::lemma_pow2_strictly_increases(8 * done as nat, 56);
            }
        }
        value = 256 * value + bytes[done] as u64;
        done = done + 1;
    }
    value
}

/// Appends the eight bytes of `value` to `out`, most significant first.
pub fn push_be(out: &mut Vec<u8>, value: u64)
    ensures
        final(out)@ == old(out)@ + be_bytes(value),
{
    out.push((value / 0x0100_0000_0000_0000) as u8);
    out.push((value / 0x0001_0000_0000_0000 % 256) as u8);
    out.push((value / 0x0000_0100_0000_0000 % 256) as u8);
    out.push((value / 0x0000_0001_0000_0000 % 256) as u8);
    out.push((value / 0x0000_0000_0100_0000 % 256) as u8);
    out.push((value / 0x0000_0000_0001_0000 % 256) as u8);
    out.push((value / 0x0000_0000_0000_0100 % 256) as u8);
    out.push((value % 256) as u8);
    assert(out@ =~= old(out)@ + be_bytes(value));
}

/// Whether a number is a power of two.
pub open spec fn is_power_of_two(n: nat) -> bool {
    exists|exponent: nat| n == #[trigger] power2::pow2(exponent)
}

proof fn lemma_halving(n: nat)
    requires
        n % 2 == 0,
        n > 0,
    ensures
        is_power_of_two(n) <==> is_power_of_two(n / 2),
{
    power2::lemma2_to64();
    if is_power_of_two(n) {
        let exponent = choose|exponent: nat| n == #[trigger] power2::pow2(exponent);
        assert(exponent > 0);
        power2::lemma_pow2_unfold(exponent);
        assert(n / 2 == power2::pow2((exponent - 1) as nat));
    }
    if is_power_of_two(n / 2) {
        let exponent = choose|exponent: nat| n / 2 == #[trigger] power2::pow2(exponent);
        power2::lemma_pow2_unfold(exponent + 1);
        assert(n == power2::pow2(exponent + 1));
    }
}

/// An odd number above one is no power of two.
proof fn lemma_odd_is_no_power(n: nat)
    requires
        n % 2 == 1,
        n > 1,
    ensures
        !is_power_of_two(n),
{
    power2::lemma2_to64();
    if is_power_of_two(n) {
        let exponent = choose|exponent: nat| n == #[trigger] power2::pow2(exponent);
        assert(exponent > 0);
        power2::lemma_pow2_unfold(exponent);
    }
}

/// Whether a number is a power of two.
pub fn check_power_of_two(n: u64) -> (result: bool)
    ensures
        result == is_power_of_two(n as nat),
{
    if n == 0 {
        assert forall|exponent: nat| 0 != #[trigger] power2::pow2(exponent) by {
            power2::lemma_pow2_pos(exponent);
        }
        return false;
    }
    let mut rest: u64 = n;
    while rest % 2 == 0
        invariant
            rest > 0,
            is_power_of_two(n as nat) == is_power_of_two(rest as nat),
        decreases rest,
    {
        proof {
            lemma_halving(rest as nat);
        }
        rest = rest / 2;
    }
    proof {
        if rest > 1 {
            lemma_odd_is_no_power(rest as nat);
        } else {
            power2::lemma2_to64();
            assert(1 == power2::pow2(0));
        }
    }
    rest == 1
}

/// `a` divided by `b`, rounded up.
pub open spec fn ceil_div(a: int, b: int) -> int {
    (a + b - 1) / b
}

/// Rounding up covers the dividend, and with one part less it does not.
pub proof fn lemma_ceil_div(a: int, b: int)
    requires
        a >= 0,
        b > 0,
    ensures
        0 <= ceil_div(a, b) <= a,
        ceil_div(a, b) * b >= a,
        a > 0 ==> ceil_div(a, b) > 0,
        (ceil_div(a, b) - 1) * b < a || a == 0,
        forall|k: int| 0 <= k < ceil_div(a, b) ==> #[trigger] (k * b) < a,
{
    let q = ceil_div(a, b);
    let r = (a + b - 1) % b;
    vstd::arithmetic::div_mod::lemma_fundamental_div_mod(a + b - 1, b);
    vstd::arithmetic::div_mod::lemma_mod_bound(a + b - 1, b);
    assert(b * q == q * b) by (nonlinear_arith);
    assert(q >= 0) by (nonlinear_arith)
        requires
            q * b + r == a + b - 1,
            a >= 0,
            b > 0,
            r < b,
    ;
    assert(q <= a) by (nonlinear_arith)
        requires
            q * b + r == a + b - 1,
            r >= 0,
            a >= 0,
            b > 0,
    ;
    if a > 0 {
        assert(q > 0) by (nonlinear_arith)
            requires
                q * b + r == a + b - 1,
                a > 0,
                b > 0,
                r < b,
        ;
    }
    assert((q - 1) * b == q * b - b) by (nonlinear_arith);
    assert forall|k: int| 0 <= k < q implies #[trigger] (k * b) < a by {
        assert(k * b <= (q - 1) * b) by (nonlinear_arith)
            requires
                k <= q - 1,
                b > 0,
        ;
    }
}

/// `a` divided by `b`, rounded up.
pub fn div_ceil(a: u64, b: u64) -> (result: u64)
    requires
        b > 0,
    ensures
        result == ceil_div(a as int, b as int),
{
    let quotient: u64 = a / b;
    let rest: u64 = a % b;
    proof {
        let q = quotient as int;
        let d = b as int;
        vstd::arithmetic::div_mod::lemma_fundamental_div_mod(a as int, d);
        assert(d * q == q * d) by (nonlinear_arith);
        if rest == 0 {
            vstd::arithmetic::div_mod::lemma_fundamental_div_mod_converse(
                a + d - 1,
                d,
                q,
                d - 1,
            );
        } else {
            assert((q + 1) * d == q * d + d) by (nonlinear_arith);
            vstd::arithmetic::div_mod::lemma_fundamental_div_mod_converse(
                a + d - 1,
                d,
                q + 1,
                rest - 1,
            );
            assert(q < a) by (nonlinear_arith)
                requires
                    q * d + rest == a,
                    rest > 0,
                    d > 0,
                    q >= 0,
            ;
        }
    }
    if rest == 0 {
        quotient
    } else {
        quotient + 1
    }
}

/// The two nodes of a pair are the two numbers with the same half.
pub proof fn lemma_mates_share_their_half(node: u32, other: u32)
    ensures
        other == mate(node) <==> other != node && other / 2 == node / 2,
{
}

} // verus!
