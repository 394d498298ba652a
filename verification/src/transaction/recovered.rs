//! Transactions together with their signers.
use crate::crypto::secp256k1::RecoveryError;
use crate::transaction::cache::{cache_after, SignerCache};
use crate::transaction::signed::SignedTransaction;
use vstd::prelude::*;

verus! {

/// A transaction and its signer.
#[derive(Debug)]
pub struct Recovered<T> {
    pub inner: T,
    pub signer: [u8; 20],
}

impl<T> Recovered<T> {
    /// The transaction with the given signer, which is not checked.
    pub fn new_unchecked(inner: T, signer: [u8; 20]) -> (r: Self)
        ensures
            r.inner == inner,
            r.signer == signer,
    {
        Recovered { inner, signer }
    }
}

/// What the cache knows after a signer was recovered with it.
pub open spec fn known_after<T: SignedTransaction>(tx: &T, cache: &SignerCache) -> Option<
    Map<u64, Seq<char>>,
> {
    if T::uses_cache() {
        cache_after(cache@, tx.model().gas_limit, tx.model().signer())
    } else {
        cache@
    }
}

/// Converts a [`SignedTransaction`] into one with its signer.
pub trait SignedTransactionIntoRecoveredExt: SignedTransaction {
    /// Tries to recover the signer, and returns it with a clone of the transaction.
    fn try_clone_into_recovered(&self, cache: &mut SignerCache) -> (r: Result<
        Recovered<Self>,
        RecoveryError,
    >)
        ensures
            match r {
                Ok(recovered) => {
                    &&& self.model().signer() == Some(recovered.signer@)
                    &&& cloned(*self, recovered.inner)
                },
                Err(_) => self.model().signer() is None,
            },
            final(cache)@ == known_after(self, &*old(cache)),
    {
        match self.recover_signer(cache) {
            Ok(signer) => Ok(Recovered::new_unchecked(self.clone(), signer)),
            Err(error) => Err(error),
        }
    }

    /// Tries to recover the signer, and returns it with the transaction.
    ///
    /// Gives the transaction back if its signature is invalid.
    fn try_into_recovered(self, cache: &mut SignerCache) -> (r: Result<Recovered<Self>, Self>)
        ensures
            match r {
                Ok(recovered) => {
                    &&& self.model().signer() == Some(recovered.signer@)
                    &&& recovered.inner == self
                },
                Err(tx) => self.model().signer() is None && tx == self,
            },
            final(cache)@ == known_after(&self, &*old(cache)),
    {
        match self.recover_signer(cache) {
            Ok(signer) => Ok(Recovered::new_unchecked(self, signer)),
            Err(_) => Err(self),
        }
    }

    /// Recovers the signer _without ensuring that the signature has a low `s` value_, and returns
    /// it with the transaction.
    ///
    /// It is an error if the signature is invalid.
    fn into_recovered_unchecked(self) -> (r: Result<Recovered<Self>, RecoveryError>)
        ensures
            match r {
                Ok(recovered) => {
                    &&& self.model().unchecked_signer() == Some(recovered.signer@)
                    &&& recovered.inner == self
                },
                Err(_) => self.model().unchecked_signer() is None,
            },
    {
        match self.recover_signer_unchecked() {
            Ok(signer) => Ok(Recovered::new_unchecked(self, signer)),
            Err(error) => Err(error),
        }
    }

    /// Returns the transaction with the given signer.
    ///
    /// Note: assumes the given signer is the signer of this transaction.
    fn with_signer(self, signer: [u8; 20]) -> (r: Recovered<Self>)
        ensures
            r.inner == self,
            r.signer == signer,
    {
        Recovered::new_unchecked(self, signer)
    }
}

impl<T: SignedTransaction> SignedTransactionIntoRecoveredExt for T {

}

} // verus!
