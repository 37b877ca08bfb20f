//! A 64-bit surrogate identifier for a pair of texts: the leading eight bytes
//! of the Keccak-256 digest of the two texts written one after the other.
//!
//! Nothing separates the two texts, so pairs that concatenate to the same
//! text share an identifier: `("ab", "1")` and `("a", "b1")` do.

use num_bigint::BigUint;
use num_traits::ToPrimitive;
use sha3::{Digest, Keccak256};
use vstd::prelude::*;
use vstd::utf8::*;

verus! {

/// The number that `bytes` spell in base 256, most significant byte first.
pub open spec fn be_value(bytes: Seq<u8>) -> nat
    decreases bytes.len(),
{
    if bytes.len() == 0 {
        0
    } else {
        be_value(bytes.drop_last()) * 256 + bytes.last() as nat
    }
}

/// 256 to the power of `n`.
pub open spec fn pow256(n: nat) -> nat
    decreases n,
{
    if n == 0 {
        1
    } else {
        256 * pow256((n - 1) as nat)
    }
}

/// `n` bytes spell a number below 256 to the power of `n`.
pub proof fn lemma_be_value_bound(bytes: Seq<u8>)
    ensures
        be_value(bytes) < pow256(bytes.len()),
    decreases bytes.len(),
{
    if bytes.len() > 0 {
        lemma_be_value_bound(bytes.drop_last());
        let high = be_value(bytes.drop_last());
        let limit = pow256((bytes.len() - 1) as nat);
        assert(high * 256 + 256 <= limit * 256) by (nonlinear_arith)
            requires
                high < limit,
        ;
    }
}

/// Up to eight bytes always spell a number that a `u64` holds.
pub proof fn lemma_eight_bytes_fit(bytes: Seq<u8>)
    requires
        bytes.len() <= 8,
    ensures
        be_value(bytes) <= u64::MAX,
{
    lemma_be_value_bound(bytes);
    reveal_with_fuel(pow256, 9);
    assert(pow256(8) == 0x1_0000_0000_0000_0000);
    assert(pow256(bytes.len()) <= pow256(8));
}

/// The Keccak-256 digest of `data`, as the `sha3` crate computes it.
pub uninterp spec fn keccak256(data: Seq<u8>) -> Seq<u8>;

/// Calls `<sha3::Keccak256 as sha3::Digest>::digest`, which feeds `data` to a
/// fresh hasher and finalizes it. Trusted: that the digest depends on `data`
/// alone, and that it is 32 bytes long, the output size the crate declares
/// for `Keccak256`.
#[verifier::external_body]
fn keccak256_digest(data: &[u8]) -> (digest: Vec<u8>)
    ensures
        digest@ == keccak256(data@),
        digest@.len() == 32,
{
    Keccak256::digest(data).to_vec()
}

/// Calls `num_bigint::BigUint::from_bytes_be`, which reads `bytes` as a
/// number in big-endian byte order, and `num_traits::ToPrimitive::to_u64` on
/// the result, which gives the number where a `u64` can represent it and
/// `None` where it cannot. Trusted: exactly that.
#[verifier::external_body]
fn be_bytes_to_u64(bytes: &[u8]) -> (number: Option<u64>)
    ensures
        be_value(bytes@) <= u64::MAX ==> number == Some(be_value(bytes@) as u64),
        be_value(bytes@) > u64::MAX ==> number.is_none(),
{
    BigUint::from_bytes_be(bytes).to_u64()
}

/// The identifier of the pair `(addr, type_value)`: the number spelt by the
/// first eight bytes of the Keccak-256 digest of the UTF-8 bytes of `addr`
/// followed directly by those of `type_value`.
pub open spec fn surrogate_id(addr: Seq<char>, type_value: Seq<char>) -> nat {
    be_value(keccak256(encode_utf8(addr + type_value)).take(8))
}

/// The first eight bytes of `digest`, or all of them where it has fewer.
pub open spec fn leading_bytes(digest: Seq<u8>) -> Seq<u8> {
    if digest.len() >= 8 {
        digest.take(8)
    } else {
        digest
    }
}

/// The number spelt by the leading bytes of `digest`, most significant byte
/// first.
pub fn id_from_digest(digest: &[u8]) -> (id: u64)
    ensures
        id == be_value(leading_bytes(digest@)),
{
    let n: usize = if digest.len() >= 8 {
        8
    } else {
        digest.len()
    };
    let head = vstd::slice::slice_subrange(digest, 0, n);
    proof {
        assert(head@ =~= leading_bytes(digest@));
        lemma_eight_bytes_fit(head@);
    }
    // At most eight bytes always fit, so the fallback is never taken.
    match be_bytes_to_u64(head) {
        Some(number) => number,
        None => 0,
    }
}

/// The surrogate identifier of the pair `(addr, type_value)`.
pub fn hash_address_n_token_id(addr: &str, type_value: &str) -> (id: u64)
    ensures
        id == surrogate_id(addr@, type_value@),
{
    let mut data = String::from_str(addr);
    data.append(type_value);
    let hash_bytes = keccak256_digest(data.as_str().as_bytes());
    id_from_digest(hash_bytes.as_slice())
}

/// The identifier depends on the pair alone, and of the pair only on the
/// two texts written one after the other: pairs with the same concatenation
/// share an identifier, so equal pairs do, and so do `("ab", "1")` and
/// `("a", "b1")`.
pub proof fn law_identifier_depends_on_concatenation(
    addr: Seq<char>,
    type_value: Seq<char>,
    other_addr: Seq<char>,
    other_type_value: Seq<char>,
)
    requires
        addr + type_value == other_addr + other_type_value,
    ensures
        surrogate_id(addr, type_value) == surrogate_id(other_addr, other_type_value),
{
}

} // verus!
