//! How a raw transaction gets into the pool: it is decoded, its signer is recovered, the bytes are
//! broadcast, and the transaction is added to the pool.
use crate::transaction::cache::{cache_after, SignerCache};
use crate::transaction::pooled::{decoded_pooled, PooledTransaction};
use crate::transaction::recovered::{Recovered, SignedTransactionIntoRecoveredExt};
use crate::transaction::signed::{is_hashed, SignedTransaction, TxModel};
use vstd::prelude::*;

verus! {

/// Why a raw transaction is refused.
#[derive(Debug, Clone, Copy, PartialEq, Eq, Structural)]
pub enum RawTransactionError {
    /// There are no bytes.
    EmptyRawTransactionData,
    /// The bytes are not the envelope of a transaction.
    FailedToDecodeSignedTransaction,
    /// The signer cannot be recovered.
    InvalidTransactionSignature,
}

/// Where a transaction in the pool comes from.
#[derive(Debug, Clone, Copy, PartialEq, Eq, Structural)]
pub enum TransactionOrigin {
    Local,
    External,
    Private,
}

/// The decoded transaction of a submission that does not come from an empty one.
pub open spec fn submitted(raw: Seq<u8>) -> Option<TxModel> {
    if raw.len() == 0 {
        None
    } else {
        decoded_pooled(raw)
    }
}

/// The signer of a raw transaction.
pub open spec fn submitter(raw: Seq<u8>) -> Option<Seq<u8>> {
    match submitted(raw) {
        Some(tx) => tx.signer(),
        None => None,
    }
}

/// What the cache knows after the signer of a raw transaction was looked for.
pub open spec fn cache_after_raw(raw: Seq<u8>, cache: Option<Map<u64, Seq<char>>>) -> Option<
    Map<u64, Seq<char>>,
> {
    match submitted(raw) {
        Some(tx) => cache_after(cache, tx.gas_limit, tx.signer()),
        None => cache,
    }
}

/// The error of a raw transaction whose signer is not found.
pub open spec fn refusal(raw: Seq<u8>) -> RawTransactionError {
    if raw.len() == 0 {
        RawTransactionError::EmptyRawTransactionData
    } else if decoded_pooled(raw) is None {
        RawTransactionError::FailedToDecodeSignedTransaction
    } else {
        RawTransactionError::InvalidTransactionSignature
    }
}

/// Decodes the transaction and recovers its signer.
pub fn recover_raw_transaction(raw: &[u8], cache: &mut SignerCache) -> (r: Result<
    Recovered<PooledTransaction>,
    RawTransactionError,
>)
    ensures
        match r {
            Ok(recovered) => {
                &&& submitter(raw@) == Some(recovered.signer@)
                &&& submitted(raw@) == Some(recovered.inner.model())
                &&& is_hashed(recovered.inner.model())
            },
            Err(error) => submitter(raw@) is None && error == refusal(raw@),
        },
        raw@.len() == 0 ==> r is Err && r->Err_0 == RawTransactionError::EmptyRawTransactionData,
        raw@.len() > 0 ==> match decoded_pooled(raw@) {
            None => r is Err && r->Err_0 == RawTransactionError::FailedToDecodeSignedTransaction,
            Some(tx) => match tx.signer() {
                None => r is Err && r->Err_0 == RawTransactionError::InvalidTransactionSignature,
                Some(signer) => r is Ok && r->Ok_0.signer@ == signer && r->Ok_0.inner.model()
                    == tx,
            },
        },
        final(cache)@ == cache_after_raw(raw@, old(cache)@),
{
    if raw.len() == 0 {
        return Err(RawTransactionError::EmptyRawTransactionData);
    }
    match PooledTransaction::decode_2718(raw) {
        Ok(tx) => match tx.try_into_recovered(cache) {
            Ok(recovered) => Ok(recovered),
            Err(_) => Err(RawTransactionError::InvalidTransactionSignature),
        },
        Err(_) => Err(RawTransactionError::FailedToDecodeSignedTransaction),
    }
}

/// A transaction that is to be broadcast to the subscribers and then added to the pool.
#[derive(Debug)]
pub struct Broadcast {
    raw: Vec<u8>,
    transaction: Recovered<PooledTransaction>,
}

/// A transaction that is to be added to the pool.
#[derive(Debug)]
pub struct PoolRequest {
    pub origin: TransactionOrigin,
    pub transaction: Recovered<PooledTransaction>,
}

/// Decodes the transaction and recovers its signer. What is to be done with it then is up to the
/// result; a transaction that is refused is not broadcast.
pub fn send_raw_transaction(tx: Vec<u8>, cache: &mut SignerCache) -> (r: Result<
    Broadcast,
    RawTransactionError,
>)
    ensures
        match r {
            Ok(next) => {
                &&& next.bytes() == tx@
                &&& submitter(tx@) == Some(next.recovered().signer@)
                &&& submitted(tx@) == Some(next.recovered().inner.model())
                &&& is_hashed(next.recovered().inner.model())
            },
            Err(error) => submitter(tx@) is None && error == refusal(tx@),
        },
        tx@.len() == 0 ==> r is Err && r->Err_0 == RawTransactionError::EmptyRawTransactionData,
        tx@.len() > 0 ==> match decoded_pooled(tx@) {
            None => r is Err && r->Err_0 == RawTransactionError::FailedToDecodeSignedTransaction,
            Some(decoded) => match decoded.signer() {
                None => r is Err && r->Err_0 == RawTransactionError::InvalidTransactionSignature,
                Some(signer) => {
                    &&& r is Ok
                    &&& r->Ok_0.bytes() == tx@
                    &&& r->Ok_0.recovered().signer@ == signer
                    &&& r->Ok_0.recovered().inner.model() == decoded
                },
            },
        },
        final(cache)@ == cache_after_raw(tx@, old(cache)@),
{
    match recover_raw_transaction(tx.as_slice(), cache) {
        Ok(transaction) => Ok(Broadcast { raw: tx, transaction }),
        Err(error) => Err(error),
    }
}

impl Broadcast {
    /// The bytes to broadcast.
    pub closed spec fn bytes(&self) -> Seq<u8> {
        self.raw@
    }

    /// The transaction and its signer.
    pub closed spec fn recovered(&self) -> Recovered<PooledTransaction> {
        self.transaction
    }

    /// The bytes to broadcast.
    pub fn raw(&self) -> (r: &Vec<u8>)
        ensures
            r@ == self.bytes(),
    {
        &self.raw
    }

    /// What follows when the bytes have been broadcast: the transaction is added to the pool, with
    /// a local origin.
    pub fn broadcasted(self) -> (r: PoolRequest)
        ensures
            r.origin == TransactionOrigin::Local,
            r.transaction == self.recovered(),
    {
        PoolRequest { origin: TransactionOrigin::Local, transaction: self.transaction }
    }
}

/// Why a submission fails.
#[derive(Debug)]
pub enum SubmissionError<E> {
    /// The transaction is refused.
    Refused(RawTransactionError),
    /// The pool does not take the transaction.
    Pool(E),
}

/// The outcome of a submission when the pool has answered: the hash of the transaction.
pub fn submission_result<E>(answer: Result<[u8; 32], E>) -> (r: Result<
    [u8; 32],
    SubmissionError<E>,
>)
    ensures
        match answer {
            Ok(hash) => r == Ok::<[u8; 32], SubmissionError<E>>(hash),
            Err(error) => r == Err::<[u8; 32], SubmissionError<E>>(SubmissionError::Pool(error)),
        },
{
    match answer {
        Ok(hash) => Ok(hash),
        Err(error) => Err(SubmissionError::Pool(error)),
    }
}

} // verus!
