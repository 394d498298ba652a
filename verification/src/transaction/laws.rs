//! What holds of signers and the cache.
use crate::bytes::be_value;
use crate::crypto::keccak::keccak256_digest;
use crate::crypto::secp256k1::{recovered_address, SECP256K1N_HALF};
use crate::hex::{address_of, checksum_text, decoded_hex, law_checksum_text_is_read_back};
use crate::transaction::cache::{by_gas_limit, cache_after, gas_limit_of, is_readable, without_0x};
use crate::transaction::pooled::{OpPooledTransaction, PooledTransaction, Signed};
use crate::transaction::signed::{SignedTransaction, TxKind, TxModel};
use vstd::prelude::*;
use vstd::utf8::encode_utf8;

verus! {

/// The cache gives back the signer that was noted for a gas limit, and keeps it when another signer
/// is recovered for the same gas limit.
pub proof fn law_cache_gives_back_the_signer(
    cache: Map<u64, Seq<char>>,
    gas: u64,
    signer: Seq<u8>,
    other: Option<Seq<u8>>,
)
    requires
        signer.len() == 20,
        !cache.dom().contains(gas),
    ensures
        ({
            let after = cache_after(Some(cache), gas, Some(signer));
            &&& is_readable(after, gas)
            &&& address_of(after->Some_0[gas]) == Some(signer)
            &&& cache_after(after, gas, other) == after
        }),
{
    law_checksum_text_is_read_back(signer);
}

/// What the cache knows for one gas limit stays as it is when a signer is recovered for another.
pub proof fn law_cache_keeps_other_gas_limits(
    cache: Map<u64, Seq<char>>,
    gas: u64,
    signer: Option<Seq<u8>>,
    other: u64,
)
    requires
        gas != other,
    ensures
        cache_after(Some(cache), gas, signer)->Some_0.dom().contains(other)
            == cache.dom().contains(other),
        cache.dom().contains(other) ==> cache_after(Some(cache), gas, signer)->Some_0[other]
            == cache[other],
{
}

/// The signer of a transaction is the address that the curve gives for its signature and the digest
/// of the bytes that were signed. With the check there is one only where the `s` value is at most
/// half the order of the curve; nothing else of the transaction matters.
pub proof fn law_signer_goes_by_signature_and_bytes(tx: TxModel)
    ensures
        ({
            let address = recovered_address(
                tx.signature.r,
                tx.signature.s,
                tx.signature.odd_y,
                keccak256_digest(tx.signing),
            );
            &&& tx.signature_hash() == keccak256_digest(tx.signing)
            &&& tx.unchecked_signer() == address
            &&& be_value(tx.signature.s) <= be_value(SECP256K1N_HALF@) ==> tx.signer() == address
            &&& be_value(tx.signature.s) > be_value(SECP256K1N_HALF@) ==> tx.signer() is None
        }),
{
}

/// A transaction of each kind is what its fields hold.
pub proof fn law_transaction_is_its_fields(signed: Signed, kind: TxKind)
    ensures
        ({
            let tx = signed.model(kind);
            &&& tx.kind == kind
            &&& tx.hash == signed.hash@
            &&& tx.signature.r == signed.signature.r@
            &&& tx.signature.s == signed.signature.s@
            &&& tx.signature.odd_y == signed.signature.odd_y
            &&& tx.gas_limit == signed.gas_limit
            &&& tx.signing == signed.signing@
            &&& tx.encoded == signed.encoded@
            &&& tx.stripped == signed.stripped@
        }),
        PooledTransaction::Legacy(signed).model() == signed.model(TxKind::Legacy),
        PooledTransaction::Eip2930(signed).model() == signed.model(TxKind::Eip2930),
        PooledTransaction::Eip1559(signed).model() == signed.model(TxKind::Eip1559),
        PooledTransaction::Eip4844(signed).model() == signed.model(TxKind::Eip4844),
        PooledTransaction::Eip7702(signed).model() == signed.model(TxKind::Eip7702),
        OpPooledTransaction::Legacy(signed).model() == signed.model(TxKind::Legacy),
        OpPooledTransaction::Eip2930(signed).model() == signed.model(TxKind::Eip2930),
        OpPooledTransaction::Eip1559(signed).model() == signed.model(TxKind::Eip1559),
        OpPooledTransaction::Eip7702(signed).model() == signed.model(TxKind::Eip7702),
        PooledTransaction::uses_cache(),
        !OpPooledTransaction::uses_cache(),
{
}

/// What recovering a signer does to the cache: a disabled cache stays so; and of an enabled one
/// only the gas limit of the transaction is touched, and that only where a signer was recovered
/// and none was known. The address with its checksum is noted.
pub proof fn law_cache_notes_new_signers(
    cache: Map<u64, Seq<char>>,
    gas: u64,
    signer: Option<Seq<u8>>,
)
    ensures
        cache_after(None, gas, signer) is None,
        cache_after(Some(cache), gas, signer) is Some,
        ({
            let after = cache_after(Some(cache), gas, signer)->Some_0;
            &&& signer is None || cache.dom().contains(gas) ==> after == cache
            &&& signer is Some && !cache.dom().contains(gas) ==> after == cache.insert(
                gas,
                checksum_text(signer->Some_0),
            )
        }),
{
}

/// The gas limit of an address goes by its first four bytes: their number modulo 60000, and 21000.
/// A text that is not hexadecimal, or of fewer bytes, has 21000.
pub proof fn law_gas_limit_of_an_address(address: Seq<char>, bytes: Seq<u8>)
    ensures
        decoded_hex(without_0x(encode_utf8(address))) is None ==> gas_limit_of(address) == 21000,
        decoded_hex(without_0x(encode_utf8(address))) == Some(bytes) ==> gas_limit_of(address)
            == if bytes.len() < 4 {
            21000
        } else {
            (bytes[0] * 0x1000000 + bytes[1] * 0x10000 + bytes[2] * 0x100 + bytes[3]) % 60000
                + 21000
        },
{
    if bytes.len() >= 4 {
        let four = bytes.subrange(0, 4);
        reveal_with_fuel(be_value, 5);
        assert(four.drop_last() =~= bytes.subrange(0, 3));
        assert(bytes.subrange(0, 3).drop_last() =~= bytes.subrange(0, 2));
        assert(bytes.subrange(0, 2).drop_last() =~= bytes.subrange(0, 1));
        assert(bytes.subrange(0, 1).drop_last() =~= Seq::empty());
    }
}

/// The map of the accounts: a gas limit is known where an account has it, and the address is that
/// of the last such account; the result is its position.
pub proof fn law_accounts_by_gas_limit(addresses: Seq<Seq<char>>, gas: u64) -> (r: int)
    ensures
        by_gas_limit(addresses).dom().contains(gas) ==> {
            &&& 0 <= r < addresses.len()
            &&& gas_limit_of(addresses[r]) == gas
            &&& by_gas_limit(addresses)[gas] == addresses[r]
        },
        !by_gas_limit(addresses).dom().contains(gas) ==> r == -1,
        forall|j: int|
            r < j < addresses.len() && 0 <= j ==> gas_limit_of(#[trigger] addresses[j]) != gas,
    decreases addresses.len(),
{
    if addresses.len() == 0 {
        -1
    } else {
        let rest = addresses.drop_last();
        let end = addresses.len() - 1;
        let r = law_accounts_by_gas_limit(rest, gas);
        if gas_limit_of(addresses[end]) == gas {
            end
        } else {
            assert forall|j: int| r < j < addresses.len() && 0 <= j implies gas_limit_of(
                #[trigger] addresses[j],
            ) != gas by {
                if j < end {
                    assert(rest[j] == addresses[j]);
                }
            }
            r
        }
    }
}

} // verus!
