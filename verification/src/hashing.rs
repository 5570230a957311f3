use sha2::Digest;
use vstd::prelude::*;

use crate::coordinates::NodeId;

verus! {

/// The SHA-256 digest of a byte string, as `sha2::Sha256` computes it.
pub uninterp spec fn sha256_digest(data: Seq<u8>) -> Seq<u8>;

/// Calls `sha2::Sha256::digest` (the `Digest` trait). The contract claims that the
/// result is the digest of the input bytes, determined by them alone, and that it is
/// 32 bytes long, the output size of SHA-256.
#[verifier::external_body]
pub(crate) fn sha256(data: &[u8]) -> (r: Vec<u8>)
    ensures
        r@ == sha256_digest(data@),
        r@.len() == 32,
{
    sha2::Sha256::digest(data).to_vec()
}

/// The UTF-8 encoding of a node identifier.
pub open spec fn id_bytes(id: Seq<char>) -> Seq<u8> {
    vstd::utf8::encode_utf8(id)
}

/// The digest of a node identifier's UTF-8 bytes.
pub open spec fn id_digest(id: Seq<char>) -> Seq<u8> {
    sha256_digest(id_bytes(id))
}

/// Hashes the UTF-8 bytes of a node identifier with SHA-256.
pub fn digest_of_id(id: &NodeId) -> (r: Vec<u8>)
    ensures
        r@ == id_digest(id@),
        r@.len() == 32,
{
    let bytes = id.0.as_str().as_bytes();
    sha256(bytes)
}

/// The unsigned integer that a byte string denotes in big-endian order.
pub open spec fn be_value(s: Seq<u8>) -> nat
    decreases s.len(),
{
    if s.len() == 0 {
        0
    } else {
        be_value(s.drop_last()) * 256 + s.last() as nat
    }
}

/// `256` to the power `n`.
pub open spec fn byte_power(n: nat) -> nat
    decreases n,
{
    if n == 0 {
        1
    } else {
        256 * byte_power((n - 1) as nat)
    }
}

/// A big-endian value of `n` bytes is below `256^n`.
pub proof fn lemma_be_value_bound(s: Seq<u8>)
    ensures
        be_value(s) < byte_power(s.len()),
    decreases s.len(),
{
    if s.len() > 0 {
        lemma_be_value_bound(s.drop_last());
    }
}

/// Reads the first eight bytes of `bytes` as a big-endian `u64`.
pub fn be_u64_prefix(bytes: &Vec<u8>) -> (r: u64)
    requires
        bytes@.len() >= 8,
    ensures
        r as nat == be_value(bytes@.take(8)),
{
    let mut value: u64 = 0;
    let mut i: usize = 0;
    proof {
        reveal_with_fuel(byte_power, 9);
        assert(bytes@.take(0) =~= Seq::<u8>::empty());
    }
    while i < 8
        invariant
            i <= 8,
            bytes@.len() >= 8,
            value as nat == be_value(bytes@.take(i as int)),
            byte_power(8) == 0x1_0000_0000_0000_0000nat,
        decreases 8 - i,
    {
        proof {
            lemma_be_value_bound(bytes@.take(i as int));
            reveal_with_fuel(byte_power, 9);
            assert(bytes@.take(i + 1).drop_last() =~= bytes@.take(i as int));
        }
        assert(value * 256 + bytes@[i as int] < 0x1_0000_0000_0000_0000) by {
            assert(i < 8);
            assert(byte_power(i as nat) <= byte_power(7));
        }
        value = value * 256 + bytes[i] as u64;
        i = i + 1;
    }
    value
}

} // verus!
