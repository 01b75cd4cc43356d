//! Sets of small numbers, one bit each.

use vstd::prelude::*;

verus! {

/// Whether bit `i` is set.
pub open spec fn bit(words: Seq<u64>, i: int) -> bool {
    (words[i / 64] >> ((i % 64) as u64)) & 1 == 1
}

proof fn lemma_set_bit(word: u64, a: u64, b: u64)
    requires
        a < 64,
        b < 64,
    ensures
        ((word | (1u64 << a)) >> b) & 1 == 1 <==> (a == b || (word >> b) & 1 == 1),
{
    assert(((word | (1u64 << a)) >> b) & 1 == 1 <==> (a == b || (word >> b) & 1 == 1))
        by (bit_vector)
        requires
            a < 64,
            b < 64,
    ;
}

proof fn lemma_clear_bit(word: u64, a: u64, b: u64)
    requires
        a < 64,
        b < 64,
    ensures
        ((word & !(1u64 << a)) >> b) & 1 == 1 <==> (a != b && (word >> b) & 1 == 1),
{
    assert(((word & !(1u64 << a)) >> b) & 1 == 1 <==> (a != b && (word >> b) & 1 == 1))
        by (bit_vector)
        requires
            a < 64,
            b < 64,
    ;
}

/// Reads a bit.
pub fn get(words: &Vec<u64>, i: u64) -> (set: bool)
    requires
        i < 64 * words.len(),
    ensures
        set == bit(words@, i as int),
{
    (words[(i / 64) as usize] >> (i % 64)) & 1 == 1
}

/// Sets a bit.
pub fn set(words: &mut Vec<u64>, i: u64)
    requires
        i < 64 * old(words).len(),
    ensures
        final(words).len() == old(words).len(),
        forall|k: int|
            0 <= k < 64 * old(words).len() ==> (#[trigger] bit(final(words)@, k) <==> (k == i
                || bit(old(words)@, k))),
{
    let w: usize = (i / 64) as usize;
    let word: u64 = words[w];
    words.set(w, word | (1u64 << (i % 64)));
    assert forall|k: int| 0 <= k < 64 * old(words).len() implies (#[trigger] bit(words@, k) <==> (k
        == i || bit(old(words)@, k))) by {
        lemma_set_bit(word, i % 64, (k % 64) as u64);
    }
}

/// Clears a bit.
pub fn clear(words: &mut Vec<u64>, i: u64)
    requires
        i < 64 * old(words).len(),
    ensures
        final(words).len() == old(words).len(),
        forall|k: int|
            0 <= k < 64 * old(words).len() ==> (#[trigger] bit(final(words)@, k) <==> (k != i && bit(
                old(words)@,
                k,
            ))),
{
    let w: usize = (i / 64) as usize;
    let word: u64 = words[w];
    words.set(w, word & !(1u64 << (i % 64)));
    assert forall|k: int| 0 <= k < 64 * old(words).len() implies (#[trigger] bit(words@, k) <==> (k
        != i && bit(old(words)@, k))) by {
        lemma_clear_bit(word, i % 64, (k % 64) as u64);
    }
}

/// Clears every bit.
pub fn clear_all(words: &mut Vec<u64>)
    ensures
        final(words).len() == old(words).len(),
        forall|k: int| 0 <= k < 64 * old(words).len() ==> !#[trigger] bit(final(words)@, k),
{
    let mut w: usize = 0;
    while w < words.len()
        invariant
            w <= words.len() == old(words).len(),
            forall|v: int| 0 <= v < w ==> #[trigger] words@[v] == 0,
        decreases words.len() - w,
    {
        words.set(w, 0);
        w = w + 1;
    }
    assert forall|k: int| 0 <= k < 64 * old(words).len() implies !#[trigger] bit(words@, k) by {
        let shift: u64 = (k % 64) as u64;
        assert((0u64 >> shift) & 1 == 0) by (bit_vector);
    }
}

/// A set of `count` words with every bit set.
pub fn full(count: usize) -> (words: Vec<u64>)
    ensures
        words.len() == count,
        forall|k: int| 0 <= k < 64 * count ==> #[trigger] bit(words@, k),
{
    let words: Vec<u64> = vec![u64::MAX; count];
    assert forall|k: int| 0 <= k < 64 * count implies #[trigger] bit(words@, k) by {
        let shift: u64 = (k % 64) as u64;
        assert((0xffff_ffff_ffff_ffffu64 >> shift) & 1 == 1) by (bit_vector)
            requires
                shift < 64,
        ;
    }
    words
}

/// A bit is the binary digit of its word, the lowest first.
pub proof fn lemma_bits_are_binary_digits(words: Seq<u64>, i: int)
    requires
        0 <= i < 64 * words.len(),
    ensures
        bit(words, i) <==> words[i / 64] as nat / vstd::arithmetic::power2::pow2((i % 64) as nat)
            % 2 == 1,
{
    let word = words[i / 64];
    let shift = (i % 64) as u64;
    vstd::bits::lemma_u64_shr_is_div(word, shift);
    let rest = word >> shift;
    assert(rest & 1 == rest % 2) by (bit_vector);
}

} // verus!
