//! API of a signed transaction.
use crate::bytes::be_value;
use crate::crypto::keccak::{keccak256, keccak256_digest};
use crate::crypto::secp256k1::{
    recovered_address, recovers, RecoveryError, Signature, SignatureModel, SECP256K1N_HALF,
};
use crate::transaction::cache::{cache_after, SignerCache};
use vstd::prelude::*;

verus! {

/// The kinds of transactions.
#[derive(Debug, Clone, Copy, PartialEq, Eq, Structural)]
pub enum TxKind {
    Legacy,
    Eip2930,
    Eip1559,
    Eip4844,
    Eip7702,
}

/// What a signed transaction is.
pub struct TxModel {
    pub kind: TxKind,
    /// The transaction hash.
    pub hash: Seq<u8>,
    pub signature: SignatureModel,
    pub gas_limit: u64,
    /// The bytes whose hash was signed.
    pub signing: Seq<u8>,
    /// The transaction in its envelope.
    pub encoded: Seq<u8>,
    /// The envelope without blobs.
    pub stripped: Seq<u8>,
}

impl TxModel {
    /// The hash that was signed.
    pub open spec fn signature_hash(self) -> Seq<u8> {
        keccak256_digest(self.signing)
    }

    /// The bytes whose digest the transaction hash is: the envelope, for a transaction with blobs
    /// the one without them.
    pub open spec fn hashed(self) -> Seq<u8> {
        if self.kind == TxKind::Eip4844 {
            self.stripped
        } else {
            self.encoded
        }
    }

    /// The signer, where the signature has a low `s` value.
    pub open spec fn signer(self) -> Option<Seq<u8>> {
        self.signature.low_signer(self.signature_hash())
    }

    /// The signer, whatever the `s` value is.
    pub open spec fn unchecked_signer(self) -> Option<Seq<u8>> {
        self.signature.signer(self.signature_hash())
    }
}

/// Whether the transaction carries its hash, and has nothing but blobs stripped.
pub open spec fn is_hashed(tx: TxModel) -> bool {
    &&& tx.hash == keccak256_digest(tx.hashed())
    &&& tx.kind != TxKind::Eip4844 ==> tx.stripped == tx.encoded
}

/// A signed transaction.
pub trait SignedTransaction: Sized + Clone {
    /// What the transaction is.
    spec fn model(&self) -> TxModel;

    /// Whether the signers of these transactions are noted in the cache.
    spec fn uses_cache() -> bool;

    /// Returns reference to transaction hash.
    fn tx_hash(&self) -> (r: &[u8; 32])
        ensures
            r@ == self.model().hash,
    ;

    /// Returns reference to signature.
    fn signature(&self) -> (r: &Signature)
        ensures
            r@ == self.model().signature,
    ;

    /// Returns whether this is a transaction with blobs.
    fn is_eip4844(&self) -> (r: bool)
        ensures
            r == (self.model().kind == TxKind::Eip4844),
    ;

    /// Returns the transaction in its envelope.
    fn encoded_2718(&self) -> (r: &Vec<u8>)
        ensures
            r@ == self.model().encoded,
    ;

    /// Returns the envelope without blobs.
    fn stripped_2718(&self) -> (r: &Vec<u8>)
        ensures
            r@ == self.model().stripped,
    ;

    /// Returns whether this transaction type can be __broadcasted__ as full transaction over the
    /// network.
    ///
    /// Some transactions are not broadcastable as objects and only allowed to be broadcasted as
    /// hashes, because they lack context: transactions with blobs.
    fn is_broadcastable_in_full(&self) -> (r: bool)
        ensures
            r == (self.model().kind != TxKind::Eip4844),
    {
        !self.is_eip4844()
    }

    /// Recovers the signer from signature and hash, whatever the cache holds. Where the cache is
    /// used and knows no address for the gas limit, it knows the signer from then on.
    ///
    /// It is an error if the signature is invalid or its `s` value is not low.
    fn recover_signer(&self, cache: &mut SignerCache) -> (r: Result<[u8; 20], RecoveryError>)
        ensures
            recovers(r, self.model().signer()),
            be_value(self.model().signature.s) <= be_value(SECP256K1N_HALF@)
                ==> match recovered_address(
                self.model().signature.r,
                self.model().signature.s,
                self.model().signature.odd_y,
                keccak256_digest(self.model().signing),
            ) {
                Some(address) => r matches Ok(found) && found@ == address,
                None => r is Err,
            },
            be_value(self.model().signature.s) > be_value(SECP256K1N_HALF@) ==> r is Err,
            final(cache)@ == if Self::uses_cache() {
                cache_after(old(cache)@, self.model().gas_limit, self.model().signer())
            } else {
                old(cache)@
            },
    ;

    /// Recovers the signer as [`Self::recover_signer`] does.
    fn try_recover(&self, cache: &mut SignerCache) -> (r: Result<[u8; 20], RecoveryError>)
        ensures
            recovers(r, self.model().signer()),
            be_value(self.model().signature.s) <= be_value(SECP256K1N_HALF@)
                ==> match recovered_address(
                self.model().signature.r,
                self.model().signature.s,
                self.model().signature.odd_y,
                keccak256_digest(self.model().signing),
            ) {
                Some(address) => r matches Ok(found) && found@ == address,
                None => r is Err,
            },
            be_value(self.model().signature.s) > be_value(SECP256K1N_HALF@) ==> r is Err,
            final(cache)@ == if Self::uses_cache() {
                cache_after(old(cache)@, self.model().gas_limit, self.model().signer())
            } else {
                old(cache)@
            },
    {
        match self.recover_signer(cache) {
            Ok(address) => Ok(address),
            Err(_) => Err(RecoveryError),
        }
    }

    /// Recovers the signer from signature and hash _without ensuring that the signature has a low
    /// `s` value_.
    ///
    /// It is an error if the signature is invalid.
    fn recover_signer_unchecked(&self) -> (r: Result<[u8; 20], RecoveryError>)
        ensures
            recovers(r, self.model().unchecked_signer()),
            match recovered_address(
                self.model().signature.r,
                self.model().signature.s,
                self.model().signature.odd_y,
                keccak256_digest(self.model().signing),
            ) {
                Some(address) => r matches Ok(found) && found@ == address,
                None => r is Err,
            },
    {
        let mut buf: Vec<u8> = Vec::new();
        match self.recover_signer_unchecked_with_buf(&mut buf) {
            Ok(address) => Ok(address),
            Err(_) => Err(RecoveryError),
        }
    }

    /// Recovers the signer as [`Self::recover_signer_unchecked`] does.
    fn try_recover_unchecked(&self) -> (r: Result<[u8; 20], RecoveryError>)
        ensures
            recovers(r, self.model().unchecked_signer()),
            match recovered_address(
                self.model().signature.r,
                self.model().signature.s,
                self.model().signature.odd_y,
                keccak256_digest(self.model().signing),
            ) {
                Some(address) => r matches Ok(found) && found@ == address,
                None => r is Err,
            },
    {
        self.recover_signer_unchecked()
    }

    /// Same as [`Self::recover_signer_unchecked`] but receives a buffer to operate on, whatever it
    /// holds. The buffer holds the bytes whose hash was signed afterwards.
    fn recover_signer_unchecked_with_buf(&self, buf: &mut Vec<u8>) -> (r: Result<
        [u8; 20],
        RecoveryError,
    >)
        ensures
            recovers(r, self.model().unchecked_signer()),
            match recovered_address(
                self.model().signature.r,
                self.model().signature.s,
                self.model().signature.odd_y,
                keccak256_digest(self.model().signing),
            ) {
                Some(address) => r matches Ok(found) && found@ == address,
                None => r is Err,
            },
            final(buf)@ == self.model().signing,
    ;

    /// Calculates the transaction hash: the digest of the envelope, whatever hash the transaction
    /// carries. The envelope of a transaction with blobs holds them, and the hash does not depend
    /// on them; there it is the digest of the envelope without them.
    fn recalculate_hash(&self) -> (r: [u8; 32])
        ensures
            r@ == keccak256_digest(self.model().hashed()),
            self.model().kind != TxKind::Eip4844 ==> r@ == keccak256_digest(self.model().encoded),
            self.model().kind == TxKind::Eip4844 ==> r@ == keccak256_digest(
                self.model().stripped,
            ),
            is_hashed(self.model()) ==> r@ == self.model().hash,
    {
        if self.is_eip4844() {
            keccak256(self.stripped_2718().as_slice())
        } else {
            keccak256(self.encoded_2718().as_slice())
        }
    }
}

/// A signed transaction that a full node can work with.
pub trait FullSignedTx: SignedTransaction {

}

impl<T: SignedTransaction> FullSignedTx for T {

}

} // verus!
