//! Transactions as the pool takes them.
use crate::crypto::keccak::keccak256;
use crate::crypto::secp256k1::{recover_signer, recover_signer_unchecked, RecoveryError, Signature};
use crate::transaction::cache::SignerCache;
use crate::transaction::signed::{is_hashed, SignedTransaction, TxKind, TxModel};
use crate::trie::updates::copy_bytes;
use alloy_consensus::transaction::PooledTransaction as Envelope;
use alloy_consensus::{EthereumTypedTransaction as Unsigned, SignableTransaction, Transaction};
use alloy_consensus::{EthereumTxEnvelope, TxEip4844};
use alloy_eips::eip2718::{Decodable2718, Encodable2718};
use op_alloy_consensus::OpPooledTransaction as OpEnvelope;
use vstd::prelude::*;

verus! {

/// The envelope of a transaction without blobs.
type Stripped = EthereumTxEnvelope<TxEip4844>;

/// A transaction with its signature and its hash.
#[derive(Debug)]
pub struct Signed {
    pub hash: [u8; 32],
    pub signature: Signature,
    pub gas_limit: u64,
    /// The bytes whose hash was signed.
    pub signing: Vec<u8>,
    /// The transaction in its envelope.
    pub encoded: Vec<u8>,
    /// The envelope without blobs.
    pub stripped: Vec<u8>,
}

impl Signed {
    /// What the transaction is, where it is of the given kind.
    pub open spec fn model(&self, kind: TxKind) -> TxModel {
        TxModel {
            kind,
            hash: self.hash@,
            signature: self.signature@,
            gas_limit: self.gas_limit,
            signing: self.signing@,
            encoded: self.encoded@,
            stripped: self.stripped@,
        }
    }
}

impl Clone for Signed {
    fn clone(&self) -> (r: Self)
        ensures
            forall|kind: TxKind| #[trigger] r.model(kind) == self.model(kind),
    {
        Signed {
            hash: self.hash,
            signature: self.signature,
            gas_limit: self.gas_limit,
            signing: copy_bytes(self.signing.as_slice()),
            encoded: copy_bytes(self.encoded.as_slice()),
            stripped: copy_bytes(self.stripped.as_slice()),
        }
    }
}

/// A transaction that may be in the pool. One with blobs comes with its sidecar.
#[derive(Debug)]
pub enum PooledTransaction {
    Legacy(Signed),
    Eip2930(Signed),
    Eip1559(Signed),
    Eip4844(Signed),
    Eip7702(Signed),
}

impl PooledTransaction {
    /// The transaction with its signature.
    fn signed(&self) -> (r: &Signed)
        ensures
            self.model() == r.model(self.model().kind),
    {
        match self {
            PooledTransaction::Legacy(tx) => tx,
            PooledTransaction::Eip2930(tx) => tx,
            PooledTransaction::Eip1559(tx) => tx,
            PooledTransaction::Eip4844(tx) => tx,
            PooledTransaction::Eip7702(tx) => tx,
        }
    }

    /// The hash that was signed.
    pub fn signature_hash(&self) -> (r: [u8; 32])
        ensures
            r@ == self.model().signature_hash(),
    {
        keccak256(self.signed().signing.as_slice())
    }

    /// The gas limit.
    pub fn gas_limit(&self) -> (r: u64)
        ensures
            r == self.model().gas_limit,
    {
        self.signed().gas_limit
    }
}

impl Clone for PooledTransaction {
    fn clone(&self) -> (r: Self)
        ensures
            r.model() == self.model(),
    {
        match self {
            PooledTransaction::Legacy(tx) => PooledTransaction::Legacy(tx.clone()),
            PooledTransaction::Eip2930(tx) => PooledTransaction::Eip2930(tx.clone()),
            PooledTransaction::Eip1559(tx) => PooledTransaction::Eip1559(tx.clone()),
            PooledTransaction::Eip4844(tx) => PooledTransaction::Eip4844(tx.clone()),
            PooledTransaction::Eip7702(tx) => PooledTransaction::Eip7702(tx.clone()),
        }
    }
}

impl SignedTransaction for PooledTransaction {
    open spec fn model(&self) -> TxModel {
        match self {
            PooledTransaction::Legacy(tx) => tx.model(TxKind::Legacy),
            PooledTransaction::Eip2930(tx) => tx.model(TxKind::Eip2930),
            PooledTransaction::Eip1559(tx) => tx.model(TxKind::Eip1559),
            PooledTransaction::Eip4844(tx) => tx.model(TxKind::Eip4844),
            PooledTransaction::Eip7702(tx) => tx.model(TxKind::Eip7702),
        }
    }

    open spec fn uses_cache() -> bool {
        true
    }

    fn tx_hash(&self) -> (r: &[u8; 32]) {
        &self.signed().hash
    }

    fn signature(&self) -> (r: &Signature) {
        &self.signed().signature
    }

    fn is_eip4844(&self) -> (r: bool) {
        match self {
            PooledTransaction::Eip4844(_) => true,
            _ => false,
        }
    }

    fn encoded_2718(&self) -> (r: &Vec<u8>) {
        &self.signed().encoded
    }

    fn stripped_2718(&self) -> (r: &Vec<u8>) {
        &self.signed().stripped
    }

    fn recover_signer(&self, cache: &mut SignerCache) -> (r: Result<[u8; 20], RecoveryError>) {
        let signature_hash = self.signature_hash();
        match recover_signer(self.signature(), &signature_hash) {
            Ok(signer) => {
                cache.learn(self.gas_limit(), &signer);
                Ok(signer)
            },
            Err(_) => Err(RecoveryError),
        }
    }

    fn recover_signer_unchecked_with_buf(&self, buf: &mut Vec<u8>) -> (r: Result<
        [u8; 20],
        RecoveryError,
    >) {
        *buf = copy_bytes(self.signed().signing.as_slice());
        let signature_hash = keccak256(buf.as_slice());
        recover_signer_unchecked(self.signature(), &signature_hash)
    }
}

/// A transaction that may be in the pool of a rollup.
#[derive(Debug)]
pub enum OpPooledTransaction {
    Legacy(Signed),
    Eip2930(Signed),
    Eip1559(Signed),
    Eip7702(Signed),
}

impl OpPooledTransaction {
    /// The transaction with its signature.
    fn signed(&self) -> (r: &Signed)
        ensures
            self.model() == r.model(self.model().kind),
    {
        match self {
            OpPooledTransaction::Legacy(tx) => tx,
            OpPooledTransaction::Eip2930(tx) => tx,
            OpPooledTransaction::Eip1559(tx) => tx,
            OpPooledTransaction::Eip7702(tx) => tx,
        }
    }

    /// The hash that was signed.
    pub fn signature_hash(&self) -> (r: [u8; 32])
        ensures
            r@ == self.model().signature_hash(),
    {
        keccak256(self.signed().signing.as_slice())
    }
}

impl Clone for OpPooledTransaction {
    fn clone(&self) -> (r: Self)
        ensures
            r.model() == self.model(),
    {
        match self {
            OpPooledTransaction::Legacy(tx) => OpPooledTransaction::Legacy(tx.clone()),
            OpPooledTransaction::Eip2930(tx) => OpPooledTransaction::Eip2930(tx.clone()),
            OpPooledTransaction::Eip1559(tx) => OpPooledTransaction::Eip1559(tx.clone()),
            OpPooledTransaction::Eip7702(tx) => OpPooledTransaction::Eip7702(tx.clone()),
        }
    }
}

impl SignedTransaction for OpPooledTransaction {
    open spec fn model(&self) -> TxModel {
        match self {
            OpPooledTransaction::Legacy(tx) => tx.model(TxKind::Legacy),
            OpPooledTransaction::Eip2930(tx) => tx.model(TxKind::Eip2930),
            OpPooledTransaction::Eip1559(tx) => tx.model(TxKind::Eip1559),
            OpPooledTransaction::Eip7702(tx) => tx.model(TxKind::Eip7702),
        }
    }

    open spec fn uses_cache() -> bool {
        false
    }

    fn tx_hash(&self) -> (r: &[u8; 32]) {
        &self.signed().hash
    }

    fn signature(&self) -> (r: &Signature) {
        &self.signed().signature
    }

    fn is_eip4844(&self) -> (r: bool) {
        false
    }

    fn encoded_2718(&self) -> (r: &Vec<u8>) {
        &self.signed().encoded
    }

    fn stripped_2718(&self) -> (r: &Vec<u8>) {
        &self.signed().stripped
    }

    fn recover_signer(&self, cache: &mut SignerCache) -> (r: Result<[u8; 20], RecoveryError>) {
        let signature_hash = self.signature_hash();
        recover_signer(self.signature(), &signature_hash)
    }

    fn recover_signer_unchecked_with_buf(&self, buf: &mut Vec<u8>) -> (r: Result<
        [u8; 20],
        RecoveryError,
    >) {
        *buf = copy_bytes(self.signed().signing.as_slice());
        let signature_hash = keccak256(buf.as_slice());
        recover_signer_unchecked(self.signature(), &signature_hash)
    }
}

/// The transaction that the bytes are the envelope of; `None` where they are not one of a
/// transaction that may be in the pool.
pub uninterp spec fn decoded_pooled(raw: Seq<u8>) -> Option<TxModel>;

/// The transaction that the bytes are the envelope of; `None` where they are not one of a
/// transaction that may be in the pool of a rollup.
pub uninterp spec fn decoded_op_pooled(raw: Seq<u8>) -> Option<TxModel>;

/// The error of bytes that are not an envelope.
#[verifier::external_type_specification]
#[verifier::external_body]
pub struct ExEip2718Error(alloy_eips::eip2718::Eip2718Error);

/// Calls `decode_2718` of `alloy_consensus::transaction::PooledTransaction`, and reads what the
/// transaction holds: its kind, hash, signature and gas limit, the bytes whose hash was signed,
/// and the envelope, with its blobs and without them. All of it is a function of the bytes, and so
/// is whether it is an error. The hash is the digest of the envelope without blobs, which is the
/// whole envelope where the transaction is of a kind without them.
#[verifier::external_body]
fn decode_pooled(raw: &[u8]) -> (r: Result<PooledTransaction, alloy_eips::eip2718::Eip2718Error>)
    ensures
        match r {
            Ok(tx) => decoded_pooled(raw@) == Some(tx.model()) && is_hashed(tx.model()),
            Err(_) => decoded_pooled(raw@) is None,
        },
{
    let tx = Envelope::decode_2718(&mut &*raw)?;
    let sig = tx.signature();
    let signed = Signed {
        hash: tx.hash().0, gas_limit: tx.gas_limit(), encoded: tx.encoded_2718(),
        signing: Unsigned::from(tx.clone()).encoded_for_signing(),
        stripped: Stripped::from(tx.clone()).encoded_2718(),
        signature: Signature { r: sig.r().to_be_bytes(), s: sig.s().to_be_bytes(), odd_y: sig.v() },
    };
    Ok((match tx {
        Envelope::Legacy(_) => PooledTransaction::Legacy,
        Envelope::Eip2930(_) => PooledTransaction::Eip2930,
        Envelope::Eip1559(_) => PooledTransaction::Eip1559,
        Envelope::Eip4844(_) => PooledTransaction::Eip4844,
        Envelope::Eip7702(_) => PooledTransaction::Eip7702,
    })(signed))
}

/// Calls `decode_2718` of `op_alloy_consensus::OpPooledTransaction`, and reads what the
/// transaction holds: its kind, hash, signature and gas limit, the bytes whose hash was signed,
/// and the envelope. All of it is a function of the bytes, and so is whether it is an error. The
/// hash is the digest of the envelope, and no kind has blobs.
#[verifier::external_body]
fn decode_op_pooled(raw: &[u8]) -> (r: Result<
    OpPooledTransaction,
    alloy_eips::eip2718::Eip2718Error,
>)
    ensures
        match r {
            Ok(tx) => decoded_op_pooled(raw@) == Some(tx.model()) && is_hashed(tx.model()),
            Err(_) => decoded_op_pooled(raw@) is None,
        },
{
    let tx = OpEnvelope::decode_2718(&mut &*raw)?;
    let mut signing = Vec::new();
    tx.encode_for_signing(&mut signing);
    let sig = tx.signature();
    let signed = Signed {
        hash: tx.hash().0, gas_limit: tx.gas_limit(), encoded: tx.encoded_2718(), signing,
        stripped: tx.encoded_2718(),
        signature: Signature { r: sig.r().to_be_bytes(), s: sig.s().to_be_bytes(), odd_y: sig.v() },
    };
    Ok(match tx {
        OpEnvelope::Legacy(_) => OpPooledTransaction::Legacy(signed),
        OpEnvelope::Eip2930(_) => OpPooledTransaction::Eip2930(signed),
        OpEnvelope::Eip1559(_) => OpPooledTransaction::Eip1559(signed),
        OpEnvelope::Eip7702(_) => OpPooledTransaction::Eip7702(signed),
    })
}

/// The bytes are not the envelope of a transaction that may be in the pool.
#[derive(Debug)]
pub struct DecodeError;

impl PooledTransaction {
    /// The transaction that the bytes are the envelope of.
    pub fn decode_2718(raw: &[u8]) -> (r: Result<Self, DecodeError>)
        ensures
            match r {
                Ok(tx) => decoded_pooled(raw@) == Some(tx.model()) && is_hashed(tx.model()),
                Err(_) => decoded_pooled(raw@) is None,
            },
    {
        match decode_pooled(raw) {
            Ok(tx) => Ok(tx),
            Err(_) => Err(DecodeError),
        }
    }
}

impl OpPooledTransaction {
    /// The transaction that the bytes are the envelope of.
    pub fn decode_2718(raw: &[u8]) -> (r: Result<Self, DecodeError>)
        ensures
            match r {
                Ok(tx) => decoded_op_pooled(raw@) == Some(tx.model()) && is_hashed(tx.model()),
                Err(_) => decoded_op_pooled(raw@) is None,
            },
    {
        match decode_op_pooled(raw) {
            Ok(tx) => Ok(tx),
            Err(_) => Err(DecodeError),
        }
    }
}

} // verus!
