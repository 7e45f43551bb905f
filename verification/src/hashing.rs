//! The cryptographic digest primitive of the tree: SHA-256 over byte
//! sequences, the digest combiner for internal nodes, and lowercase
//! hexadecimal rendering of digests for text boundaries.

use vstd::prelude::*;

verus! {

/// SHA-256 digest of a byte sequence. The digest is a function of the input
/// bytes alone, so the name stands for whatever the hash implementation
/// returns on those bytes.
pub uninterp spec fn sha256_of(data: Seq<u8>) -> Seq<u8>;

/// Whether a byte count is accepted by the SHA-256 implementation, whose
/// padding scheme stores the input length as a 64-bit count of bits.
pub open spec fn fits_sha256_input(len: int) -> bool {
    len < 0x2000000000000000
}

/// Relies on `ring::digest::digest` with `ring::digest::SHA256`: the digest
/// is a pure function of the input bytes and is 32 bytes long. `ring` panics
/// when the input length in bits overflows a 64-bit counter, so inputs that
/// long are excluded here.
#[verifier::external_body]
pub fn sha256(data: &Vec<u8>) -> (digest: Vec<u8>)
    requires
        fits_sha256_input(data@.len() as int),
    ensures
        digest@ == sha256_of(data@),
        digest@.len() == 32,
{
    ring::digest::digest(&ring::digest::SHA256, data.as_slice()).as_ref().to_vec()
}

/// Digest of an internal tree node: the hash of the left child's digest
/// followed by the right child's digest.
pub open spec fn combine(left: Seq<u8>, right: Seq<u8>) -> Seq<u8> {
    sha256_of(left + right)
}

/// Lowercase hexadecimal digit for one value below sixteen.
pub open spec fn hex_digit(nibble: u8) -> char
    recommends
        nibble < 16,
{
    if nibble < 10 {
        (0x30 + nibble) as char
    } else {
        (0x57 + nibble) as char
    }
}

/// Lowercase hexadecimal rendering of a byte sequence: two digits for each
/// byte, high nibble first.
pub open spec fn hex_of(data: Seq<u8>) -> Seq<char>
    decreases data.len(),
{
    if data.len() == 0 {
        seq![]
    } else {
        seq![hex_digit(data.first() / 16), hex_digit(data.first() % 16)] + hex_of(
            data.drop_first(),
        )
    }
}

/// The hexadecimal rendering has exactly two characters for each byte, so a
/// 32-byte digest renders as 64 characters.
pub proof fn lemma_hex_of_len(data: Seq<u8>)
    ensures
        hex_of(data).len() == 2 * data.len(),
    decreases data.len(),
{
    if data.len() > 0 {
        lemma_hex_of_len(data.drop_first());
    }
}

/// Relies on `hex::encode`: each byte becomes two lowercase hexadecimal
/// digits, high nibble first.
#[verifier::external_body]
pub fn to_hex(data: &Vec<u8>) -> (text: String)
    ensures
        text@ == hex_of(data@),
{
    hex::encode(data.as_slice())
}

/// Whether two byte vectors hold the same bytes.
pub fn bytes_eq(a: &Vec<u8>, b: &Vec<u8>) -> (eq: bool)
    ensures
        eq == (a@ == b@),
{
    if a.len() != b.len() {
        return false;
    }
    let mut i: usize = 0;
    while i < a.len()
        invariant
            i <= a@.len(),
            a@.len() == b@.len(),
            forall|j: int| 0 <= j < i ==> a@[j] == b@[j],
        decreases a@.len() - i,
    {
        if a[i] != b[i] {
            return false;
        }
        i += 1;
    }
    proof {
        assert(a@ =~= b@);
    }
    true
}

} // verus!
