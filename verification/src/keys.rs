//! The hash keys of a graph, from the header and nonce that define it.

use crate::bits;
use crate::siphash::SipKeys;
use vstd::prelude::*;

verus! {

/// The 32 bytes of BLAKE2b-256 of `message`, without a key.
pub uninterp spec fn blake2b_256(message: Seq<u8>) -> Seq<u8>;

/// Calls `blake2::Blake2b::<U32>::digest`.  Trusted: the digest depends on the
/// message alone, and its 32 bytes are those that `blake2b_256` names.
#[verifier::external_body]
pub(crate) fn blake2b(message: &[u8]) -> (digest: [u8; 32])
    ensures
        digest@ == blake2b_256(message@),
{
    <blake2::Blake2b<blake2::digest::consts::U32> as blake2::Digest>::digest(message).into()
}

/// The keys that a digest holds: four 64-bit words, each with its least
/// significant byte first.
pub open spec fn digest_keys(digest: Seq<u8>) -> SipKeys {
    SipKeys {
        k0: bits::le_value(digest.subrange(0, 8)) as u64,
        k1: bits::le_value(digest.subrange(8, 16)) as u64,
        k2: bits::le_value(digest.subrange(16, 24)) as u64,
        k3: bits::le_value(digest.subrange(24, 32)) as u64,
    }
}

/// The bytes that are hashed for one graph: the header, then the nonce with
/// its most significant byte first.
pub open spec fn key_message(pre_pow: Seq<u8>, nonce: u64) -> Seq<u8> {
    pre_pow + bits::be_bytes(nonce)
}

/// The keys of the graph of a header and a nonce.
pub open spec fn graph_keys(pre_pow: Seq<u8>, nonce: u64) -> SipKeys {
    digest_keys(blake2b_256(key_message(pre_pow, nonce)))
}

/// Reads the four keys out of a digest.
pub fn keys_from_digest(digest: &[u8; 32]) -> (keys: SipKeys)
    ensures
        keys == digest_keys(digest@),
{
    SipKeys {
        k0: bits::read_le(digest, 0),
        k1: bits::read_le(digest, 8),
        k2: bits::read_le(digest, 16),
        k3: bits::read_le(digest, 24),
    }
}

/// Grin derives the four SipHash keys from BLAKE2b-256(pre_pow || nonce_be).
pub fn derive_keys(pre_pow: &[u8], nonce: u64) -> (keys: SipKeys)
    ensures
        keys == graph_keys(pre_pow@, nonce),
{
    let mut message: Vec<u8> = Vec::new();
    message.extend_from_slice(pre_pow);
    bits::push_be(&mut message, nonce);
    assert(message@ =~= key_message(pre_pow@, nonce));
    let digest = blake2b(message.as_slice());
    keys_from_digest(&digest)
}

/// Two nonces never give the same hashed bytes for one header.
pub proof fn lemma_nonces_hash_apart(pre_pow: Seq<u8>, a: u64, b: u64)
    requires
        key_message(pre_pow, a) == key_message(pre_pow, b),
    ensures
        a == b,
{
    let x = key_message(pre_pow, a);
    let y = key_message(pre_pow, b);
    assert(x.skip(pre_pow.len() as int) =~= bits::be_bytes(a));
    assert(y.skip(pre_pow.len() as int) =~= bits::be_bytes(b));
    bits::lemma_be_round_trip(a);
    bits::lemma_be_round_trip(b);
}

/// The hashed bytes are the whole header and behind it the eight bytes of the
/// nonce, the highest first.
pub proof fn lemma_message_is_header_and_nonce(pre_pow: Seq<u8>, nonce: u64)
    ensures
        ({
            let message = key_message(pre_pow, nonce);
            let n = pre_pow.len() as int;
            &&& message.len() == n + 8
            &&& message.take(n) == pre_pow
            &&& forall|i: int| 0 <= i < n ==> #[trigger] message[i] == pre_pow[i]
            &&& message[n] == nonce / 0x0100_0000_0000_0000
            &&& message[n + 1] == nonce / 0x0001_0000_0000_0000 % 256
            &&& message[n + 2] == nonce / 0x0000_0100_0000_0000 % 256
            &&& message[n + 3] == nonce / 0x0000_0001_0000_0000 % 256
            &&& message[n + 4] == nonce / 0x0000_0000_0100_0000 % 256
            &&& message[n + 5] == nonce / 0x0000_0000_0001_0000 % 256
            &&& message[n + 6] == nonce / 0x0000_0000_0000_0100 % 256
            &&& message[n + 7] == nonce % 256
        }),
{
    assert(key_message(pre_pow, nonce).take(pre_pow.len() as int) =~= pre_pow);
}

/// Headers and nonces that differ never give the same hashed bytes: the bytes
/// determine both.
pub proof fn lemma_headers_hash_apart(first: Seq<u8>, second: Seq<u8>, a: u64, b: u64)
    requires
        key_message(first, a) == key_message(second, b),
    ensures
        first == second,
        a == b,
{
    lemma_message_is_header_and_nonce(first, a);
    lemma_message_is_header_and_nonce(second, b);
    assert(first.len() == second.len());
    assert(first =~= second);
    lemma_nonces_hash_apart(first, a, b);
}

/// The number that eight bytes write, the lowest byte first.
pub open spec fn word_at(bytes: Seq<u8>, at: int) -> int {
    bytes[at] + bytes[at + 1] * 0x100 + bytes[at + 2] * 0x1_0000 + bytes[at + 3] * 0x100_0000
        + bytes[at + 4] * 0x1_0000_0000 + bytes[at + 5] * 0x100_0000_0000 + bytes[at + 6]
        * 0x1_0000_0000_0000 + bytes[at + 7] * 0x100_0000_0000_0000
}

proof fn le_value_is_word(bytes: Seq<u8>, at: int)
    requires
        0 <= at <= bytes.len() - 8,
    ensures
        bits::le_value(bytes.subrange(at, at + 8)) == word_at(bytes, at),
{
    let b = bytes.subrange(at, at + 8);
    reveal_with_fuel(bits::le_value, 9);
    assert(b.skip(1).skip(1) =~= b.skip(2));
    assert(b.skip(2).skip(1) =~= b.skip(3));
    assert(b.skip(3).skip(1) =~= b.skip(4));
    assert(b.skip(4).skip(1) =~= b.skip(5));
    assert(b.skip(5).skip(1) =~= b.skip(6));
    assert(b.skip(6).skip(1) =~= b.skip(7));
    assert(b.skip(7).skip(1) =~= b.skip(8));
}

/// The keys are the four words of the digest in their order, each with its
/// lowest byte first.
pub proof fn lemma_keys_are_the_words_of_the_digest(digest: Seq<u8>)
    requires
        digest.len() == 32,
    ensures
        digest_keys(digest).k0 == word_at(digest, 0),
        digest_keys(digest).k1 == word_at(digest, 8),
        digest_keys(digest).k2 == word_at(digest, 16),
        digest_keys(digest).k3 == word_at(digest, 24),
{
    le_value_is_word(digest, 0);
    le_value_is_word(digest, 8);
    le_value_is_word(digest, 16);
    le_value_is_word(digest, 24);
}

/// The keys of a graph are the words of the digest of any bytes that are the
/// header with the eight bytes of the nonce behind it.
pub proof fn lemma_graph_keys_hash_the_whole_header(pre_pow: Seq<u8>, nonce: u64, message: Seq<u8>)
    requires
        message.len() == pre_pow.len() + 8,
        message.take(pre_pow.len() as int) == pre_pow,
        message[pre_pow.len() as int] == nonce / 0x0100_0000_0000_0000,
        message[pre_pow.len() as int + 1] == nonce / 0x0001_0000_0000_0000 % 256,
        message[pre_pow.len() as int + 2] == nonce / 0x0000_0100_0000_0000 % 256,
        message[pre_pow.len() as int + 3] == nonce / 0x0000_0001_0000_0000 % 256,
        message[pre_pow.len() as int + 4] == nonce / 0x0000_0000_0100_0000 % 256,
        message[pre_pow.len() as int + 5] == nonce / 0x0000_0000_0001_0000 % 256,
        message[pre_pow.len() as int + 6] == nonce / 0x0000_0000_0000_0100 % 256,
        message[pre_pow.len() as int + 7] == nonce % 256,
    ensures
        blake2b_256(message).len() == 32 ==> {
            let keys = graph_keys(pre_pow, nonce);
            let digest = blake2b_256(message);
            &&& keys.k0 == word_at(digest, 0)
            &&& keys.k1 == word_at(digest, 8)
            &&& keys.k2 == word_at(digest, 16)
            &&& keys.k3 == word_at(digest, 24)
        },
{
    lemma_message_is_header_and_nonce(pre_pow, nonce);
    let written = key_message(pre_pow, nonce);
    assert forall|i: int| 0 <= i < message.len() implies message[i] == written[i] by {
        if i < pre_pow.len() {
            assert(message.take(pre_pow.len() as int)[i] == message[i]);
        }
    }
    assert(message =~= written);
    if blake2b_256(message).len() == 32 {
        lemma_keys_are_the_words_of_the_digest(blake2b_256(message));
    }
}

} // verus!
