//! A hash that gives an SSID the same number in every run.

use vstd::prelude::*;
use vstd::utf8::encode_utf8;

verus! {

/// Value of the hash of no bytes at all.
pub const HASH_OFFSET: u64 = 0xcbf2_9ce4_8422_2325;

/// Factor by which the hash is multiplied after each byte.
pub const HASH_PRIME: u64 = 0x0000_0100_0000_01b3;

/// The hash after one more byte: xor it in, multiply modulo 2^64.
pub open spec fn hash_step(hash: u64, byte: u8) -> u64 {
    (((hash ^ (byte as u64)) as int * HASH_PRIME as int) % 0x1_0000_0000_0000_0000) as u64
}

/// The 64-bit FNV-1a hash of `bytes`.
pub open spec fn fnv1a(bytes: Seq<u8>) -> u64 {
    bytes.fold_left(HASH_OFFSET, |hash: u64, byte: u8| hash_step(hash, byte))
}

/// Hash a byte string (64-bit FNV-1a).
pub fn stable_hash64(bytes: &[u8]) -> (hash: u64)
    ensures
        hash == fnv1a(bytes@),
{
    let mut hash: u64 = HASH_OFFSET;
    let mut i: usize = 0;
    while i < bytes.len()
        invariant
            i <= bytes@.len(),
            hash == fnv1a(bytes@.take(i as int)),
        decreases bytes@.len() - i,
    {
        proof {
            assert(bytes@.take(i as int + 1).drop_last() =~= bytes@.take(i as int));
        }
        let mixed: u64 = hash ^ (bytes[i] as u64);
        hash = mixed.wrapping_mul(HASH_PRIME);
        i += 1;
    }
    assert(bytes@.take(i as int) =~= bytes@);
    hash
}

/// Hash the UTF-8 bytes of an SSID.
pub fn ssid_hash(ssid: &str) -> (hash: u64)
    ensures
        hash == fnv1a(encode_utf8(ssid@)),
{
    stable_hash64(ssid.as_bytes())
}

/// Hashing can be resumed: the hash of a concatenation is the hash of the first
/// part with the bytes of the second mixed in one by one.
pub proof fn law_hash_resumes(first: Seq<u8>, second: Seq<u8>)
    ensures
        fnv1a(first + second) == second.fold_left(
            fnv1a(first),
            |hash: u64, byte: u8| hash_step(hash, byte),
        ),
{
    let f = |hash: u64, byte: u8| hash_step(hash, byte);
    (first + second).lemma_fold_left_split(HASH_OFFSET, f, first.len() as int);
    assert((first + second).subrange(0, first.len() as int) =~= first);
    assert((first + second).subrange(first.len() as int, (first + second).len() as int) =~= second);
}

/// One more byte changes the hash by exactly that byte: it is xored in, and the result is
/// multiplied by the 64-bit FNV prime, modulo 2^64. The hash of no bytes is the offset basis.
pub proof fn law_hash_mixes_each_byte(bytes: Seq<u8>, byte: u8)
    ensures
        fnv1a(bytes.push(byte)) == (((fnv1a(bytes) ^ (byte as u64)) as int * 0x100_0000_01b3)
            % 0x1_0000_0000_0000_0000),
        fnv1a(Seq::empty()) == 0xcbf2_9ce4_8422_2325,
{
    assert(bytes.push(byte).drop_last() =~= bytes);
}

} // verus!
