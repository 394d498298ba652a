//! Keccak-256.
use vstd::prelude::*;

verus! {

/// The Keccak-256 digest of `data`.
pub uninterp spec fn keccak256_digest(data: Seq<u8>) -> Seq<u8>;

/// Calls `alloy_primitives::keccak256`. The result is the digest of the bytes, and it is a
/// function of those bytes alone.
#[verifier::external_body]
pub(crate) fn keccak256(data: &[u8]) -> (r: [u8; 32])
    ensures
        r@ == keccak256_digest(data@),
{
    alloy_primitives::keccak256(data).0
}

/// The 32 bytes from position `from` on.
pub fn word_at(bytes: &[u8], from: usize) -> (r: [u8; 32])
    requires
        from + 32 <= bytes@.len(),
    ensures
        r@ == bytes@.subrange(from as int, from + 32),
{
    let len: usize = bytes.len();
    let mut word: [u8; 32] = [0u8;32];
    let mut i: usize = 0;
    while i < 32
        invariant
            i <= 32,
            from + 32 <= len == bytes@.len(),
            forall|j: int| 0 <= j < i ==> #[trigger] word@[j] == bytes@[from + j],
        decreases 32 - i,
    {
        word[i] = bytes[from + i];
        i = i + 1;
    }
    assert(word@ =~= bytes@.subrange(from as int, from + 32));
    word
}

} // verus!
