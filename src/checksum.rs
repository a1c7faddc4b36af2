use sha2::Digest;
use vstd::prelude::*;

use crate::bits::{push_bits, to_bits, lemma_to_bits_len};

verus! {

/// The SHA-256 digest of `data`.
pub uninterp spec fn sha256_of(data: Seq<u8>) -> Seq<u8>;

/// Relies on sha2's `Sha256::digest`: the SHA-256 digest of `data`, which is 32 bytes long.
#[verifier::external_body]
pub(crate) fn sha256(data: &[u8]) -> (r: Vec<u8>)
    ensures
        r@ == sha256_of(data@),
        r@.len() == 32,
{
    sha2::Sha256::digest(data).to_vec()
}

/// The checksum of `entropy`: the top `width` bits of the first byte of its SHA-256 digest.
pub open spec fn checksum_spec(entropy: Seq<u8>, width: nat) -> Seq<bool> {
    to_bits(sha256_of(entropy)[0] as nat, 8).take(width as int)
}

/// The checksum bits of `entropy`, most significant first.
pub fn checksum_bits(entropy: &Vec<u8>, width: usize) -> (r: Vec<bool>)
    requires
        width <= 8,
    ensures
        r@ == checksum_spec(entropy@, width as nat),
{
    let hash = sha256(entropy.as_slice());
    let mut first: Vec<bool> = Vec::new();
    push_bits(&mut first, hash[0] as usize, 8);
    proof {
        lemma_to_bits_len(hash@[0] as nat, 8);
        assert(first@ =~= to_bits(hash@[0] as nat, 8));
    }
    let mut r: Vec<bool> = Vec::new();
    let mut i: usize = 0;
    while i < width
        invariant
            width <= 8,
            first@.len() == 8,
            i <= width,
            r@ == first@.take(i as int),
        decreases width - i,
    {
        r.push(first[i]);
        i = i + 1;
        assert(r@ =~= first@.take(i as int));
    }
    r
}

} // verus!
