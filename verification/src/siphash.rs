//! The keyed hash that defines the edges of a Cuckatoo graph.

use crate::bits;
use vstd::arithmetic::power2;
use vstd::prelude::*;

verus! {

/// The four words that key the hash of one graph.
#[derive(Debug, Clone, Copy, PartialEq, Eq, Structural)]
pub struct SipKeys {
    pub k0: u64,
    pub k1: u64,
    pub k2: u64,
    pub k3: u64,
}

/// The keys as a shader reads them: each word split in two, low half first.
#[derive(Debug, Clone, Copy)]
pub struct GpuSipKeys {
    pub words: [u32; 8],
}

/// The low half of a word.
pub open spec fn low_half(value: u64) -> u32 {
    (value & 0xffff_ffff) as u32
}

/// The high half of a word.
pub open spec fn high_half(value: u64) -> u32 {
    (value >> 32) as u32
}

/// The eight words that a shader reads for `keys`.
pub open spec fn gpu_words(keys: SipKeys) -> Seq<u32> {
    seq![
        low_half(keys.k0),
        high_half(keys.k0),
        low_half(keys.k1),
        high_half(keys.k1),
        low_half(keys.k2),
        high_half(keys.k2),
        low_half(keys.k3),
        high_half(keys.k3),
    ]
}

/// Splitting a word in two halves loses nothing.
pub proof fn lemma_halves_rebuild_word(value: u64)
    ensures
        value == low_half(value) as u64 + high_half(value) as u64 * 0x1_0000_0000,
{
    let low: u64 = value & 0xffff_ffff;
    let high: u64 = value >> 32;
    assert(value == low + high * 0x1_0000_0000 && low <= 0xffff_ffff && high <= 0xffff_ffff)
        by (bit_vector)
        requires
            low == value & 0xffff_ffff,
            high == value >> 32,
    ;
}

/// The shader words determine the keys they were made from.
pub proof fn lemma_gpu_words_are_faithful(a: SipKeys, b: SipKeys)
    requires
        gpu_words(a) == gpu_words(b),
    ensures
        a == b,
{
    let x = gpu_words(a);
    let y = gpu_words(b);
    assert(x[0] == y[0] && x[1] == y[1] && x[2] == y[2] && x[3] == y[3]);
    assert(x[4] == y[4] && x[5] == y[5] && x[6] == y[6] && x[7] == y[7]);
    lemma_halves_rebuild_word(a.k0);
    lemma_halves_rebuild_word(b.k0);
    lemma_halves_rebuild_word(a.k1);
    lemma_halves_rebuild_word(b.k1);
    lemma_halves_rebuild_word(a.k2);
    lemma_halves_rebuild_word(b.k2);
    lemma_halves_rebuild_word(a.k3);
    lemma_halves_rebuild_word(b.k3);
}

fn split(value: u64) -> (halves: (u32, u32))
    ensures
        halves.0 == low_half(value),
        halves.1 == high_half(value),
{
    assert(value & 0xffff_ffff <= 0xffff_ffff && value >> 32 <= 0xffff_ffff) by (bit_vector);
    ((value & 0xffff_ffff) as u32, (value >> 32) as u32)
}

impl vstd::std_specs::convert::FromSpecImpl<SipKeys> for GpuSipKeys {
    open spec fn obeys_from_spec() -> bool {
        true
    }

    open spec fn from_spec(keys: SipKeys) -> GpuSipKeys {
        GpuSipKeys {
            words: [
                low_half(keys.k0),
                high_half(keys.k0),
                low_half(keys.k1),
                high_half(keys.k1),
                low_half(keys.k2),
                high_half(keys.k2),
                low_half(keys.k3),
                high_half(keys.k3),
            ],
        }
    }
}

impl From<SipKeys> for GpuSipKeys {
    fn from(keys: SipKeys) -> (result: GpuSipKeys) {
        let a = split(keys.k0);
        let b = split(keys.k1);
        let c = split(keys.k2);
        let d = split(keys.k3);
        GpuSipKeys { words: [a.0, a.1, b.0, b.1, c.0, c.1, d.0, d.1] }
    }
}

/// `value` rotated left by `amount` bits, for `0 < amount < 64`.
pub open spec fn rotated(value: u64, amount: u64) -> u64 {
    (value << amount) | (value >> ((64 - amount) as u64))
}

fn rotate(value: u64, amount: u64) -> (result: u64)
    requires
        0 < amount < 64,
    ensures
        result == rotated(value, amount),
{
    (value << amount) | (value >> (64 - amount))
}

/// One round on the four words of the state.
pub open spec fn sip_rounded(v: Seq<u64>) -> Seq<u64> {
    let a0 = v[0].wrapping_add(v[1]);
    let a2 = v[2].wrapping_add(v[3]);
    let a1 = rotated(v[1], 13) ^ a0;
    let a3 = rotated(v[3], 16) ^ a2;
    let b0 = rotated(a0, 32);
    let b2 = a2.wrapping_add(a1);
    let c0 = b0.wrapping_add(a3);
    let b1 = rotated(a1, 17) ^ b2;
    let b3 = rotated(a3, 21) ^ c0;
    let c2 = rotated(b2, 32);
    seq![c0, b1, c2, b3]
}

fn sip_round(v: &mut [u64; 4])
    ensures
        final(v)@ == sip_rounded(old(v)@),
{
    v[0] = v[0].wrapping_add(v[1]);
    v[2] = v[2].wrapping_add(v[3]);
    v[1] = rotate(v[1], 13) ^ v[0];
    v[3] = rotate(v[3], 16) ^ v[2];
    v[0] = rotate(v[0], 32);
    v[2] = v[2].wrapping_add(v[1]);
    v[0] = v[0].wrapping_add(v[3]);
    v[1] = rotate(v[1], 17) ^ v[2];
    v[3] = rotate(v[3], 21) ^ v[0];
    v[2] = rotate(v[2], 32);
    assert(v@ =~= sip_rounded(old(v)@));
}

/// SipHash-2-4 of one 64-bit word, with the keys as the initial state.
#[verifier::opaque]
pub open spec fn siphash(keys: SipKeys, nonce: u64) -> u64 {
    let start = seq![keys.k0, keys.k1, keys.k2, keys.k3 ^ nonce];
    let mixed = sip_rounded(sip_rounded(start));
    let closing = seq![mixed[0] ^ nonce, mixed[1], mixed[2] ^ 0xff, mixed[3]];
    let last = sip_rounded(sip_rounded(sip_rounded(sip_rounded(closing))));
    last[0] ^ last[1] ^ last[2] ^ last[3]
}

/// SipHash-2-4 of one 64-bit word, with the keys as the initial state.
pub fn siphash24(keys: SipKeys, nonce: u64) -> (hash: u64)
    ensures
        hash == siphash(keys, nonce),
{
    reveal(siphash);
    let mut v = [keys.k0, keys.k1, keys.k2, keys.k3 ^ nonce];
    assert(v@ =~= seq![keys.k0, keys.k1, keys.k2, keys.k3 ^ nonce]);
    sip_round(&mut v);
    sip_round(&mut v);
    let ghost mixed = v@;
    v[0] = v[0] ^ nonce;
    v[2] = v[2] ^ 0xff;
    assert(v@ =~= seq![mixed[0] ^ nonce, mixed[1], mixed[2] ^ 0xff, mixed[3]]);
    sip_round(&mut v);
    sip_round(&mut v);
    sip_round(&mut v);
    sip_round(&mut v);
    v[0] ^ v[1] ^ v[2] ^ v[3]
}

/// The hash input of one side of an edge: the edge doubled modulo 2^64, plus
/// the side.
pub open spec fn side_nonce(edge: u64, side: int) -> u64 {
    ((edge as int * 2) % 0x1_0000_0000_0000_0000 + side % 2) as u64
}

/// The number of nodes on each side of a graph.  A node is 32 bits wide, so
/// wider graphs have no more nodes than `edge_bits == 32`.
pub open spec fn node_count(edge_bits: u8) -> nat {
    power2::pow2(if edge_bits <= 32 {
        edge_bits as nat
    } else {
        32
    })
}

/// The node that an edge touches on one side of its graph.
#[verifier::opaque]
pub open spec fn node(keys: SipKeys, edge_bits: u8, edge: u64, side: int) -> u32 {
    (siphash(keys, side_nonce(edge, side)) as nat % node_count(edge_bits)) as u32
}

/// Every node lies below the node count of its graph.
pub proof fn lemma_node_bound(keys: SipKeys, edge_bits: u8, edge: u64, side: int)
    ensures
        node(keys, edge_bits, edge, side) < node_count(edge_bits),
        node_count(edge_bits) <= 0x1_0000_0000,
{
    reveal(node);
    lemma_node_count_bound(edge_bits);
    let count = node_count(edge_bits);
    let hash = siphash(keys, side_nonce(edge, side)) as nat;
    assert(hash % count < count) by (nonlinear_arith)
        requires
            count > 0,
    ;
}

/// A graph has at least one node per side and at most 2^32.
pub proof fn lemma_node_count_bound(edge_bits: u8)
    ensures
        0 < node_count(edge_bits) <= 0x1_0000_0000,
{
    power2::lemma2_to64();
    if edge_bits < 32 {
        power2::lemma_pow2_strictly_increases(edge_bits as nat, 32);
    }
    power2::lemma_pow2_pos(if edge_bits <= 32 {
        edge_bits as nat
    } else {
        32
    });
}

/// The node that `edge` touches on side `side & 1`.
pub fn endpoint(keys: SipKeys, edge_bits: u8, edge: u64, side: u8) -> (result: u32)
    requires
        edge_bits < 64,
    ensures
        result == node(keys, edge_bits, edge, side as int),
{
    reveal(node);
    let width: u8 = if edge_bits < 32 {
        edge_bits
    } else {
        32
    };
    let mask: u64 = if width == 32 {
        0xffff_ffff
    } else {
        proof {
            bits::lemma_pow2_fits(width as nat);
        }
        bits::power_of_two(width) - 1
    };
    let doubled = edge.wrapping_mul(2);
    assert(side & 1 == side % 2) by (bit_vector);
    let hash = siphash24(keys, doubled + (side & 1) as u64);
    proof {
        power2::lemma2_to64();
        vstd::bits::lemma_u64_low_bits_mask_is_mod(hash, width as nat);
        vstd::bits::lemma_low_bits_mask_values();
        lemma_node_bound(keys, edge_bits, edge, side as int);
    }
    (hash & mask) as u32
}

/// `value` rotated right by `amount` bits, for `0 < amount < 64`.
pub open spec fn rotated_back(value: u64, amount: u64) -> u64 {
    (value >> amount) | (value << ((64 - amount) as u64))
}

/// The state before a round, from the state after it.
pub open spec fn unrounded(w: Seq<u64>) -> Seq<u64> {
    let b2 = rotated_back(w[2], 32);
    let a1 = rotated_back(w[1] ^ b2, 17);
    let a3 = rotated_back(w[3] ^ w[0], 21);
    let a0 = rotated_back(w[0].wrapping_sub(a3), 32);
    let a2 = b2.wrapping_sub(a1);
    let v1 = rotated_back(a1 ^ a0, 13);
    let v3 = rotated_back(a3 ^ a2, 16);
    seq![a0.wrapping_sub(v1), v1, a2.wrapping_sub(v3), v3]
}

proof fn rotations_cancel(x: u64)
    ensures
        rotated_back(rotated(x, 13), 13) == x,
        rotated_back(rotated(x, 16), 16) == x,
        rotated_back(rotated(x, 17), 17) == x,
        rotated_back(rotated(x, 21), 21) == x,
        rotated_back(rotated(x, 32), 32) == x,
{
    assert((((x << 13u64) | (x >> 51u64)) >> 13u64) | (((x << 13u64) | (x >> 51u64)) << 51u64) == x)
        by (bit_vector);
    assert((((x << 16u64) | (x >> 48u64)) >> 16u64) | (((x << 16u64) | (x >> 48u64)) << 48u64) == x)
        by (bit_vector);
    assert((((x << 17u64) | (x >> 47u64)) >> 17u64) | (((x << 17u64) | (x >> 47u64)) << 47u64) == x)
        by (bit_vector);
    assert((((x << 21u64) | (x >> 43u64)) >> 21u64) | (((x << 21u64) | (x >> 43u64)) << 43u64) == x)
        by (bit_vector);
    assert((((x << 32u64) | (x >> 32u64)) >> 32u64) | (((x << 32u64) | (x >> 32u64)) << 32u64) == x)
        by (bit_vector);
}

proof fn sums_cancel(x: u64, y: u64)
    ensures
        x.wrapping_add(y).wrapping_sub(y) == x,
        (x ^ y) ^ y == x,
{
    assert((x ^ y) ^ y == x) by (bit_vector);
}

/// A round can be undone: no two states lead to the same one.
pub proof fn lemma_rounds_can_be_undone(v: Seq<u64>)
    requires
        v.len() == 4,
    ensures
        unrounded(sip_rounded(v)) == v,
        sip_rounded(v).len() == 4,
{
    let a0 = v[0].wrapping_add(v[1]);
    let a2 = v[2].wrapping_add(v[3]);
    let a1 = rotated(v[1], 13) ^ a0;
    let a3 = rotated(v[3], 16) ^ a2;
    let b0 = rotated(a0, 32);
    let b2 = a2.wrapping_add(a1);
    let c0 = b0.wrapping_add(a3);
    rotations_cancel(v[1]);
    rotations_cancel(v[3]);
    rotations_cancel(a0);
    rotations_cancel(a1);
    rotations_cancel(a3);
    rotations_cancel(b2);
    sums_cancel(v[0], v[1]);
    sums_cancel(v[2], v[3]);
    sums_cancel(rotated(v[1], 13), a0);
    sums_cancel(rotated(v[3], 16), a2);
    sums_cancel(a2, a1);
    sums_cancel(b0, a3);
    sums_cancel(rotated(a1, 17), b2);
    sums_cancel(rotated(a3, 21), c0);
    assert(unrounded(sip_rounded(v)) =~= v);
}

/// Whether a state is one that a hash of a nonce is read from: four rounds back,
/// with the nonce and the closing mark taken out, and two rounds further back
/// stand the keys, the nonce mixed into the last.
pub open spec fn unwinds(last: Seq<u64>, keys: SipKeys, nonce: u64) -> bool {
    let closing = unrounded(unrounded(unrounded(unrounded(last))));
    let mixed = seq![closing[0] ^ nonce, closing[1], closing[2] ^ 0xff, closing[3]];
    unrounded(unrounded(mixed)) == seq![keys.k0, keys.k1, keys.k2, keys.k3 ^ nonce]
}

/// A hash is the exclusive or of the words of a state that unwinds to the keys
/// and the nonce, for every nonce.
pub proof fn lemma_hash_unwinds_to_its_keys(keys: SipKeys, nonce: u64)
    ensures
        exists|last: Seq<u64>| #[trigger]
            unwinds(last, keys, nonce) && last.len() == 4 && siphash(keys, nonce) == last[0]
                ^ last[1] ^ last[2] ^ last[3],
{
    reveal(siphash);
    let start = seq![keys.k0, keys.k1, keys.k2, keys.k3 ^ nonce];
    let first = sip_rounded(start);
    let mixed = sip_rounded(first);
    let closing = seq![mixed[0] ^ nonce, mixed[1], mixed[2] ^ 0xff, mixed[3]];
    let one = sip_rounded(closing);
    let two = sip_rounded(one);
    let three = sip_rounded(two);
    let last = sip_rounded(three);
    lemma_rounds_can_be_undone(start);
    lemma_rounds_can_be_undone(first);
    lemma_rounds_can_be_undone(closing);
    lemma_rounds_can_be_undone(one);
    lemma_rounds_can_be_undone(two);
    lemma_rounds_can_be_undone(three);
    sums_cancel(mixed[0], nonce);
    sums_cancel(mixed[2], 0xff);
    assert(seq![closing[0] ^ nonce, closing[1], closing[2] ^ 0xff, closing[3]] =~= mixed);
    assert(unwinds(last, keys, nonce));
}

/// A node is the low bits of the hash of twice the edge plus the side, also
/// where more bits of the same hash make the node of a larger graph.
pub proof fn lemma_nodes_are_low_bits_of_hashes(
    keys: SipKeys,
    edge_bits: u8,
    edge: u64,
    side: int,
)
    requires
        edge < 0x8000_0000_0000_0000,
        0 <= side < 2,
        edge_bits <= 32,
    ensures
        node(keys, edge_bits, edge, side) == siphash(keys, (2 * edge + side) as u64) as nat
            % power2::pow2(edge_bits as nat),
        node(keys, edge_bits, edge, side) == node(keys, 32, edge, side) as nat % power2::pow2(
            edge_bits as nat,
        ),
{
    reveal(node);
    power2::lemma2_to64();
    let hash = siphash(keys, (2 * edge + side) as u64) as int;
    let small = power2::pow2(edge_bits as nat) as int;
    lemma_node_bound(keys, edge_bits, edge, side);
    lemma_node_bound(keys, 32, edge, side);
    power2::lemma_pow2_adds(edge_bits as nat, (32 - edge_bits) as nat);
    power2::lemma_pow2_pos(edge_bits as nat);
    power2::lemma_pow2_pos((32 - edge_bits) as nat);
    vstd::arithmetic::div_mod::lemma_mod_mod(
        hash,
        small,
        power2::pow2((32 - edge_bits) as nat) as int,
    );
}

} // verus!
