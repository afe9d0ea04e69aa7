use vstd::prelude::*;
use vstd::string::StringSliceAdditionalSpecFns;

use crate::field::{fr_from_uniform_bytes, fr_modulus, le_value, word_from_le_bytes};
use crate::word::Word256;

verus! {

/// The BLAKE2b digest of `data`, `hash_length` bytes long, under personalization `personal`.
pub uninterp spec fn blake2b_digest(hash_length: usize, personal: Seq<u8>, data: Seq<u8>) -> Seq<u8>;

/// Calls `blake2b_simd::Params::new()` with `hash_length(hash_length)` and
/// `personal(personal)`, feeds `data` to the state with `update` and returns the bytes of
/// `finalize()`. Claims that the digest is a function of the three arguments and has
/// `hash_length` bytes (`Hash::as_bytes` cuts the output to that length). `hash_length`
/// outside `1..=64` or a personalization longer than 16 bytes makes the crate panic.
#[verifier::external_body]
fn blake2b(hash_length: usize, personal: &[u8], data: &[u8]) -> (digest: Vec<u8>)
    requires
        1 <= hash_length <= 64,
        personal.len() <= 16,
    ensures
        digest@ == blake2b_digest(hash_length, personal@, data@),
        digest.len() == hash_length,
{
    blake2b_simd::Params::new().hash_length(hash_length).personal(personal).to_state().update(
        data,
    ).finalize().as_bytes().to_vec()
}

/// The personalization of the verifying-key digest: the ASCII bytes of `Halo2-Verify-Key`.
pub open spec fn vk_personalization() -> Seq<u8> {
    seq![72u8, 97, 108, 111, 50, 45, 86, 101, 114, 105, 102, 121, 45, 75, 101, 121]
}

/// The little-endian bytes of `x`.
pub open spec fn le_bytes_u64(x: u64) -> Seq<u8> {
    Seq::new(8, |i: int| ((x >> ((8 * i) as u64)) & 0xffu64) as u8)
}

/// What is hashed for the verifying key: the byte length of its representation as eight
/// little-endian bytes, then the representation.
pub open spec fn transcript_message(repr: Seq<u8>) -> Seq<u8> {
    le_bytes_u64(repr.len() as u64) + repr
}

/// The 64-byte BLAKE2b digest, personalized with `Halo2-Verify-Key`, of the length-prefixed
/// representation of a verifying key's pinned data.
pub fn vk_transcript_digest(pinned_repr: &str) -> (digest: Vec<u8>)
    ensures
        digest.len() == 64,
        digest@ == blake2b_digest(
            64,
            vk_personalization(),
            transcript_message(pinned_repr.spec_bytes()),
        ),
{
    let bytes = pinned_repr.as_bytes();
    let len = bytes.len() as u64;
    let mut msg: Vec<u8> = Vec::new();
    let mut i: u64 = 0;
    while i < 8
        invariant
            i <= 8,
            msg@ == le_bytes_u64(len).take(i as int),
        decreases 8 - i,
    {
        msg.push(((len >> (8 * i)) & 0xff) as u8);
        i += 1;
        assert(msg@ =~= le_bytes_u64(len).take(i as int));
    }
    let mut k: usize = 0;
    while k < bytes.len()
        invariant
            k <= bytes.len(),
            msg@ == le_bytes_u64(len) + bytes@.take(k as int),
        decreases bytes.len() - k,
    {
        msg.push(bytes[k]);
        k += 1;
        assert(msg@ =~= le_bytes_u64(len) + bytes@.take(k as int));
    }
    assert(bytes@.take(bytes.len() as int) =~= bytes@);
    let personal: Vec<u8> = vec![72u8, 97, 108, 111, 50, 45, 86, 101, 114, 105, 102, 121, 45, 75, 101, 121];
    assert(personal@ =~= vk_personalization());
    blake2b(64, personal.as_slice(), msg.as_slice())
}

/// The verifying key's transcript representation: the BLAKE2b digest of
/// `vk_transcript_digest`, as a little-endian number, reduced into BN254's scalar field.
pub fn vk_transcript_repr(pinned_repr: &str) -> (fr: Word256)
    ensures
        fr.value() == le_value(
            blake2b_digest(64, vk_personalization(), transcript_message(pinned_repr.spec_bytes())),
        ) % fr_modulus(),
{
    let digest = vk_transcript_digest(pinned_repr);
    let repr = fr_from_uniform_bytes(digest.as_slice());
    word_from_le_bytes(&repr)
}

} // verus!
