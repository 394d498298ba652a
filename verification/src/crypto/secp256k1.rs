//! Recovery of the address that signed a message.
use crate::bytes::{be_value, exceeds};
use vstd::prelude::*;

verus! {

/// The order of the curve, divided by two.
pub const SECP256K1N_HALF: [u8; 32] = [
    0x7f, 0xff, 0xff, 0xff, 0xff, 0xff, 0xff, 0xff, 0xff, 0xff, 0xff, 0xff, 0xff, 0xff, 0xff, 0xff,
    0x5d, 0x57, 0x6e, 0x73, 0x57, 0xa4, 0x50, 0x1d, 0xdf, 0xe9, 0x2f, 0x46, 0x68, 0x1b, 0x20, 0xa0,
];

/// A signature on the curve.
#[derive(Debug, Clone, Copy)]
pub struct Signature {
    /// The `r` value, the most significant byte first.
    pub r: [u8; 32],
    /// The `s` value, the most significant byte first.
    pub s: [u8; 32],
    /// Whether the `y` value is odd.
    pub odd_y: bool,
}

/// What a signature holds.
pub struct SignatureModel {
    pub r: Seq<u8>,
    pub s: Seq<u8>,
    pub odd_y: bool,
}

impl View for Signature {
    type V = SignatureModel;

    open spec fn view(&self) -> SignatureModel {
        SignatureModel { r: self.r@, s: self.s@, odd_y: self.odd_y }
    }
}

impl SignatureModel {
    /// Whether the `s` value is at most half the order of the curve.
    pub open spec fn is_low(self) -> bool {
        be_value(self.s) <= be_value(SECP256K1N_HALF@)
    }

    /// The address whose key signed the message with the given hash.
    pub open spec fn signer(self, hash: Seq<u8>) -> Option<Seq<u8>> {
        recovered_address(self.r, self.s, self.odd_y, hash)
    }

    /// The same, where the `s` value is low.
    pub open spec fn low_signer(self, hash: Seq<u8>) -> Option<Seq<u8>> {
        if self.is_low() {
            self.signer(hash)
        } else {
            None
        }
    }
}

/// Opaque error type for sender recovery.
#[derive(Debug, Default)]
pub struct RecoveryError;

impl RecoveryError {
    /// What the error says.
    pub fn message(&self) -> (r: &'static str)
        ensures
            r@ == "Failed to recover the signer"@,
    {
        "Failed to recover the signer"
    }
}

/// The result is the address, where there is one, and an error otherwise.
pub open spec fn recovers(
    result: Result<[u8; 20], RecoveryError>,
    address: Option<Seq<u8>>,
) -> bool {
    match result {
        Ok(found) => address == Some(found@),
        Err(_) => address is None,
    }
}

/// The address whose key gives the signature `(r, s)`, with the given parity of `y`, on the
/// message with the given hash; `None` where no key does.
pub uninterp spec fn recovered_address(
    r: Seq<u8>,
    s: Seq<u8>,
    odd_y: bool,
    hash: Seq<u8>,
) -> Option<Seq<u8>>;

/// Calls `alloy_consensus::crypto::secp256k1::recover_signer_unchecked`: the address that the
/// signature and the hash belong to, a function of both; where it is an error, there is none.
#[verifier::external_body]
fn recover(signature: &Signature, hash: &[u8; 32]) -> (r: Option<[u8; 20]>)
    ensures
        match r {
            Some(address) => recovered_address(
                signature.r@,
                signature.s@,
                signature.odd_y,
                hash@,
            ) == Some(address@),
            None => recovered_address(
                signature.r@,
                signature.s@,
                signature.odd_y,
                hash@,
            ) is None,
        },
{
    let r = alloy_primitives::U256::from_be_bytes(signature.r);
    let s = alloy_primitives::U256::from_be_bytes(signature.s);
    let outside = alloy_primitives::Signature::new(r, s, signature.odd_y);
    alloy_consensus::crypto::secp256k1::recover_signer_unchecked(&outside, (*hash).into())
        .ok()
        .map(|address| address.into_array())
}

/// Recovers the signer of the message with the given hash, _without ensuring that the signature
/// has a low `s` value_.
pub fn recover_signer_unchecked(signature: &Signature, hash: &[u8; 32]) -> (r: Result<
    [u8; 20],
    RecoveryError,
>)
    ensures
        recovers(r, signature@.signer(hash@)),
        match recovered_address(signature.r@, signature.s@, signature.odd_y, hash@) {
            Some(address) => r matches Ok(found) && found@ == address,
            None => r is Err,
        },
{
    match recover(signature, hash) {
        Some(address) => Ok(address),
        None => Err(RecoveryError),
    }
}

/// Recovers the signer of the message with the given hash. It is an error if the `s` value of the
/// signature is greater than half the order of the curve.
pub fn recover_signer(signature: &Signature, hash: &[u8; 32]) -> (r: Result<
    [u8; 20],
    RecoveryError,
>)
    ensures
        recovers(r, signature@.low_signer(hash@)),
        be_value(signature.s@) <= be_value(SECP256K1N_HALF@) ==> match recovered_address(
            signature.r@,
            signature.s@,
            signature.odd_y,
            hash@,
        ) {
            Some(address) => r matches Ok(found) && found@ == address,
            None => r is Err,
        },
        be_value(signature.s@) > be_value(SECP256K1N_HALF@) ==> r is Err,
{
    if exceeds(&signature.s, &SECP256K1N_HALF) {
        return Err(RecoveryError);
    }
    recover_signer_unchecked(signature, hash)
}

/// A result stands for an address where it holds that address, and for none where it is an error.
pub proof fn law_recovered_is_the_address(
    result: Result<[u8; 20], RecoveryError>,
    address: Option<Seq<u8>>,
)
    requires
        recovers(result, address),
    ensures
        result is Ok <==> address is Some,
        result is Ok ==> result->Ok_0@ == address->Some_0,
{
}

/// The check looks at the `s` value alone. Where that is at most half the order of the curve, the
/// signer with the check is the address that the curve gives for signature and hash, if it gives
/// one, whatever `r` and the parity of `y` are; where it is greater, there is no signer with the
/// check. Without it the signer is what the curve gives, always.
pub proof fn law_check_is_on_s_alone(r: Seq<u8>, s: Seq<u8>, odd_y: bool, hash: Seq<u8>)
    ensures
        ({
            let signature = SignatureModel { r, s, odd_y };
            &&& signature.signer(hash) == recovered_address(r, s, odd_y, hash)
            &&& be_value(s) <= be_value(SECP256K1N_HALF@) ==> signature.low_signer(hash)
                == recovered_address(r, s, odd_y, hash)
            &&& be_value(s) > be_value(SECP256K1N_HALF@) ==> signature.low_signer(hash) is None
        }),
{
}

/// Twice the limit of the `s` value, and one, is the order of the curve.
pub proof fn law_half_of_the_order()
    ensures
        2 * be_value(SECP256K1N_HALF@) + 1
            == 0xfffffffffffffffffffffffffffffffebaaedce6af48a03bbfd25e8cd0364141int,
{
    let half = SECP256K1N_HALF@;
    assert(half.take(32) =~= half);
    lemma_prefix_value(half, 32);
    reveal_with_fuel(prefix_value, 33);
}

/// The number that the first bytes stand for, one byte after the other.
spec fn prefix_value(bytes: Seq<u8>, n: nat) -> nat
    decreases n,
{
    if n == 0 {
        0
    } else {
        prefix_value(bytes, (n - 1) as nat) * 256 + bytes[n - 1] as nat
    }
}

/// Reading the first bytes one by one gives their number.
proof fn lemma_prefix_value(bytes: Seq<u8>, n: nat)
    requires
        n <= bytes.len(),
    ensures
        be_value(bytes.take(n as int)) == prefix_value(bytes, n),
    decreases n,
{
    if n > 0 {
        lemma_prefix_value(bytes, (n - 1) as nat);
        assert(bytes.take(n as int).drop_last() =~= bytes.take(n - 1));
    }
}

/// Where a signer is recovered with the check, the same one is recovered without it.
pub proof fn law_checked_signer_is_the_unchecked_one(signature: SignatureModel, hash: Seq<u8>)
    requires
        signature.low_signer(hash) is Some,
    ensures
        signature.low_signer(hash) == signature.signer(hash),
{
}

} // verus!
