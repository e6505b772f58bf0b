//! Hex encoding and SHA-256 digests, as the `hex` and `sha2` crates compute them.

use vstd::prelude::*;
use sha2::Digest;

verus! {

/// The lowercase hex digit for `n`, which is below 16.
pub open spec fn hex_digit(n: int) -> char {
    seq!['0', '1', '2', '3', '4', '5', '6', '7', '8', '9', 'a', 'b', 'c', 'd', 'e', 'f'][n]
}

/// Lowercase hex of `bytes`: two digits per byte, the high nibble first.
pub open spec fn hex_lower(bytes: Seq<u8>) -> Seq<char>
    decreases bytes.len(),
{
    if bytes.len() == 0 {
        Seq::empty()
    } else {
        seq![hex_digit(bytes[0] as int / 16), hex_digit(bytes[0] as int % 16)] + hex_lower(bytes.drop_first())
    }
}

/// Hex text is made of digits and `a` to `f`, two per byte.
pub proof fn lemma_hex_lower_digits(bytes: Seq<u8>)
    ensures
        forall|k: int| 0 <= k < hex_lower(bytes).len() ==> {
            let c = #[trigger] hex_lower(bytes)[k];
            ('0' <= c && c <= '9') || ('a' <= c && c <= 'f')
        },
        hex_lower(bytes).len() == 2 * bytes.len(),
    decreases bytes.len(),
{
    if bytes.len() > 0 {
        lemma_hex_lower_digits(bytes.drop_first());
        let head = seq![
            hex_digit(bytes[0] as int / 16),
            hex_digit(bytes[0] as int % 16),
        ];
        let tail = hex_lower(bytes.drop_first());
        assert forall|k: int| 0 <= k < hex_lower(bytes).len() implies {
            let c = #[trigger] hex_lower(bytes)[k];
            ('0' <= c && c <= '9') || ('a' <= c && c <= 'f')
        } by {
            if k >= 2 {
                assert(hex_lower(bytes)[k] == tail[k - 2]);
            }
        }
    }
}

/// Calls `hex::encode`, which writes each byte as two lowercase hex digits,
/// high nibble first, from the table `0123456789abcdef`.
#[verifier::external_body]
pub(crate) fn hex_encode(data: &[u8]) -> (r: String)
    ensures
        r@ == hex_lower(data@),
{
    hex::encode(data)
}

/// A name for the SHA-256 digest of a byte sequence.
pub uninterp spec fn sha256_digest(data: Seq<u8>) -> Seq<u8>;

/// Calls `sha2::Sha256::digest`: the SHA-256 digest of `data`, which is 32
/// bytes long.
#[verifier::external_body]
pub(crate) fn sha256(data: &[u8]) -> (r: Vec<u8>)
    ensures
        r@ == sha256_digest(data@),
        r@.len() == 32,
{
    sha2::Sha256::digest(data).to_vec()
}

/// Calls `getrandom::fill` on eight bytes. Nothing is promised of the bytes.
#[verifier::external_body]
pub(crate) fn random_bytes() -> (r: Result<[u8; 8], getrandom::Error>) {
    let mut bytes = [0u8; 8];
    match getrandom::fill(&mut bytes) {
        Ok(()) => Ok(bytes),
        Err(e) => Err(e),
    }
}

} // verus!
