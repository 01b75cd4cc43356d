//! Bitmaps of living edges as the GPU keeps them: 32 edges to a word.

use crate::solver::cpu_lean;
use crate::verify;
use vstd::prelude::*;

verus! {

/// Whether an edge is set in a bitmap.
pub open spec fn edge_bit(words: Seq<u32>, edge: int) -> bool {
    (words[edge / 32] >> ((edge % 32) as u32)) & 1 == 1
}

/// The edges below `end` that are set in a bitmap.
pub open spec fn edge_set(words: Seq<u32>, end: int) -> Set<u64> {
    Set::new(|edge: u64| edge < end && edge_bit(words, edge as int))
}

/// Reads a bit.
pub fn is_set(words: &Vec<u32>, i: u64) -> (set: bool)
    requires
        i < 32 * words.len(),
    ensures
        set == edge_bit(words@, i as int),
{
    (words[(i / 32) as usize] >> ((i % 32) as u32)) & 1 == 1
}

proof fn lemma_set_bit(word: u32, a: u32, b: u32)
    requires
        a < 32,
        b < 32,
    ensures
        ((word | (1u32 << a)) >> b) & 1 == 1 <==> (a == b || (word >> b) & 1 == 1),
{
    assert(((word | (1u32 << a)) >> b) & 1 == 1 <==> (a == b || (word >> b) & 1 == 1))
        by (bit_vector)
        requires
            a < 32,
            b < 32,
    ;
}

/// Sets a bit.
pub fn set_bit(words: &mut Vec<u32>, i: u64)
    requires
        i < 32 * old(words).len(),
    ensures
        final(words).len() == old(words).len(),
        forall|k: int|
            0 <= k < 32 * old(words).len() ==> (#[trigger] edge_bit(final(words)@, k) <==> (k == i
                || edge_bit(old(words)@, k))),
{
    let w: usize = (i / 32) as usize;
    let word: u32 = words[w];
    words.set(w, word | (1u32 << ((i % 32) as u32)));
    assert forall|k: int| 0 <= k < 32 * old(words).len() implies (#[trigger] edge_bit(words@, k)
        <==> (k == i || edge_bit(old(words)@, k))) by {
        lemma_set_bit(word, (i % 32) as u32, (k % 32) as u32);
    }
}

/// A bitmap of so many words with nothing set.
pub fn cleared(count: usize) -> (words: Vec<u32>)
    ensures
        words.len() == count,
        forall|k: int| 0 <= k < 32 * count ==> !#[trigger] edge_bit(words@, k),
{
    let words: Vec<u32> = vec![0; count];
    assert forall|k: int| 0 <= k < 32 * count implies !#[trigger] edge_bit(words@, k) by {
        lemma_zero_word((k % 32) as u32);
    }
    words
}

proof fn lemma_zero_word(shift: u32)
    ensures
        (0u32 >> shift) & 1 == 0,
{
    assert((0u32 >> shift) & 1 == 0) by (bit_vector);
}

proof fn lemma_edge_set_step(words: Seq<u32>, end: u64)
    ensures
        edge_set(words, end + 1) == (if edge_bit(words, end as int) {
            edge_set(words, end as int).insert(end)
        } else {
            edge_set(words, end as int)
        }),
{
    assert(edge_set(words, end + 1) =~= (if edge_bit(words, end as int) {
        edge_set(words, end as int).insert(end)
    } else {
        edge_set(words, end as int)
    }));
}

proof fn lemma_zero_word_adds_nothing(words: Seq<u32>, index: int)
    requires
        0 <= index < words.len(),
        words[index] == 0,
    ensures
        edge_set(words, 32 * (index + 1)) == edge_set(words, 32 * index),
{
    assert forall|edge: u64| 32 * index <= edge < 32 * (index + 1) implies !edge_bit(
        words,
        edge as int,
    ) by {
        assert(edge as int / 32 == index);
        lemma_zero_word((edge as int % 32) as u32);
    }
    assert(edge_set(words, 32 * (index + 1)) =~= edge_set(words, 32 * index));
}

/// The living edges of a bitmap in ascending order.
pub fn bitmap_survivors(words: &Vec<u32>, edge_count: u64) -> (survivors: Vec<u64>)
    requires
        32 * words.len() <= u64::MAX,
        edge_count <= 32 * words.len(),
    ensures
        cpu_lean::lists(survivors@, edge_set(words@, edge_count as int)),
{
    let mut survivors: Vec<u64> = Vec::new();
    let mut index: usize = 0;
    proof {
        assert(edge_set(words@, 0) =~= Set::empty());
    }
    while index < words.len()
        invariant
            index <= words.len(),
            32 * words.len() <= u64::MAX,
            edge_count <= 32 * words.len(),
            verify::is_strictly_ascending(survivors@),
            forall|edge: u64|
                survivors@.contains(edge) <==> edge < edge_count && edge_set(
                    words@,
                    32 * index,
                ).contains(edge),
        decreases words.len() - index,
    {
        let word: u32 = words[index];
        if word != 0 {
            push_word(words, edge_count, index, &mut survivors);
        } else {
            proof {
                lemma_zero_word_adds_nothing(words@, index as int);
            }
        }
        index = index + 1;
    }
    survivors
}

fn push_word(words: &Vec<u32>, edge_count: u64, index: usize, survivors: &mut Vec<u64>)
    requires
        index < words.len(),
        32 * words.len() <= u64::MAX,
        verify::is_strictly_ascending(old(survivors)@),
        forall|edge: u64|
            old(survivors)@.contains(edge) <==> edge < edge_count && edge_set(
                words@,
                32 * index,
            ).contains(edge),
    ensures
        verify::is_strictly_ascending(final(survivors)@),
        forall|edge: u64|
            final(survivors)@.contains(edge) <==> edge < edge_count && edge_set(
                words@,
                32 * (index + 1),
            ).contains(edge),
{
    let word: u32 = words[index];
    let mut bit: u32 = 0;
    while bit < 32
        invariant
            bit <= 32,
            index < words.len(),
            word == words@[index as int],
            32 * words.len() <= u64::MAX,
            verify::is_strictly_ascending(survivors@),
            forall|edge: u64|
                survivors@.contains(edge) <==> edge < edge_count && edge_set(
                    words@,
                    32 * index + bit,
                ).contains(edge),
        decreases 32 - bit,
    {
        let edge: u64 = index as u64 * 32 + bit as u64;
        let ghost before = survivors@;
        proof {
            lemma_edge_set_step(words@, edge);
            assert(edge as int / 32 == index && edge as int % 32 == bit);
            assert(edge_bit(words@, edge as int) <==> (word >> bit) & 1 == 1);
            assert forall|e: u64| before.contains(e) <==> e < edge_count && edge_set(
                words@,
                edge as int,
            ).contains(e) by {
                assert(32 * index + bit == edge as int);
            }
        }
        if (word >> bit) & 1 == 1 && edge < edge_count {
            survivors.push(edge);
            proof {
                assert forall|e: u64| survivors@.contains(e) <==> before.contains(e) || e
                    == edge by {
                    if before.contains(e) {
                        let i = before.index_of(e);
                        assert(survivors@[i] == e);
                    }
                    if e == edge {
                        assert(survivors@[before.len() as int] == e);
                    }
                }
                assert forall|i: int| 0 <= i < before.len() implies before[i] < edge by {
                    assert(before.contains(before[i]));
                }
            }
        }
        assert(32 * index + (bit + 1) == edge + 1);
        assert forall|e: u64| survivors@.contains(e) <==> e < edge_count && edge_set(
            words@,
            edge + 1,
        ).contains(e) by {
            assert(before.contains(e) <==> e < edge_count && edge_set(
                words@,
                edge as int,
            ).contains(e));
        }
        bit = bit + 1;
    }
}

/// The number of living edges of a bitmap.
pub fn count_alive(words: &Vec<u32>) -> (count: u64)
    requires
        32 * words.len() <= u64::MAX,
    ensures
        edge_set(words@, 32 * words.len()).finite(),
        count == edge_set(words@, 32 * words.len()).len(),
{
    let mut count: u64 = 0;
    let mut index: usize = 0;
    proof {
        assert(edge_set(words@, 0) =~= Set::empty());
    }
    while index < words.len()
        invariant
            index <= words.len(),
            32 * words.len() <= u64::MAX,
            edge_set(words@, 32 * index).finite(),
            count == edge_set(words@, 32 * index).len(),
            count <= 32 * index,
        decreases words.len() - index,
    {
        let word: u32 = words[index];
        if word != 0 {
            let mut bit: u32 = 0;
            while bit < 32
                invariant
                    bit <= 32,
                    index < words.len(),
                    word == words@[index as int],
                    32 * words.len() <= u64::MAX,
                    edge_set(words@, 32 * index + bit).finite(),
                    count == edge_set(words@, 32 * index + bit).len(),
                    count <= 32 * index + bit,
                decreases 32 - bit,
            {
                proof {
                    let edge = (index * 32 + bit) as u64;
                    lemma_edge_set_step(words@, edge);
                    assert(edge as int / 32 == index && edge as int % 32 == bit);
                }
                if (word >> bit) & 1 == 1 {
                    count = count + 1;
                }
                bit = bit + 1;
            }
        } else {
            proof {
                lemma_zero_word_adds_nothing(words@, index as int);
            }
        }
        index = index + 1;
    }
    count
}

/// A listing of the living edges is as long as their number.
pub proof fn lemma_listing_has_count(edges: Seq<u64>, set: Set<u64>)
    requires
        cpu_lean::lists(edges, set),
    ensures
        set.finite(),
        edges.len() == set.len(),
{
    assert(edges.to_set() =~= set) by {
        assert forall|e: u64| edges.to_set().contains(e) <==> set.contains(e) by {
            assert(edges.to_set().contains(e) <==> edges.contains(e));
        }
    }
    assert(edges.no_duplicates());
    edges.unique_seq_to_set();
}

/// An edge is the binary digit of its word, the lowest first.
pub proof fn lemma_edges_are_binary_digits(words: Seq<u32>, edge: int)
    requires
        0 <= edge < 32 * words.len(),
    ensures
        edge_bit(words, edge) <==> words[edge / 32] as nat / vstd::arithmetic::power2::pow2(
            (edge % 32) as nat,
        ) % 2 == 1,
{
    let word = words[edge / 32];
    let shift = (edge % 32) as u32;
    vstd::bits::lemma_u32_shr_is_div(word, shift);
    let rest = word >> shift;
    assert(rest & 1 == rest % 2) by (bit_vector);
}

} // verus!
