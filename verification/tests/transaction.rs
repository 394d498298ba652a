use alloy_consensus::transaction::SignerRecoverable;
use alloy_consensus::{SignableTransaction, Transaction};
use alloy_eips::eip2718::{Decodable2718, Encodable2718};
use gravity_reth::crypto::secp256k1::{
    recover_signer, recover_signer_unchecked, RecoveryError, Signature, SECP256K1N_HALF,
};
use gravity_reth::rpc::submission::{
    recover_raw_transaction, submission_result, RawTransactionError, SubmissionError,
    TransactionOrigin,
};
use gravity_reth::transaction::cache::{
    calculate_gas_limit, get_address, init_gas_map, Account, Config, GasMap, SignerCache,
};
use gravity_reth::transaction::pooled::{OpPooledTransaction, PooledTransaction};
use gravity_reth::transaction::recovered::SignedTransactionIntoRecoveredExt;
use gravity_reth::transaction::signed::SignedTransaction;

/// https://etherscan.io/tx/0xa694b71e6c128a2ed8e2e0f6770bddbe52e3bb8f10e8472f9a79ab81497a8b5d
const RAW: &str = "02f871018303579880850555633d1b82520894eee27662c2b8eba3cd936a23f039f3189633e4c887ad591c62bdaeb180c080a07ea72c68abfb8fca1bd964f0f99132ed9280261bdca3e549546c0205e800f7d0a05b4ef3039e9c9b9babc179a1878fb825b5aaf5aed2fa8744854150157b08d6f3";

fn raw() -> Vec<u8> {
    alloy_primitives::hex::decode(RAW).unwrap()
}

fn outside() -> alloy_consensus::transaction::PooledTransaction {
    alloy_consensus::transaction::PooledTransaction::decode_2718(&mut &raw()[..]).unwrap()
}

fn signer() -> [u8; 20] {
    outside().recover_signer().unwrap().into_array()
}

fn word(text: &str) -> [u8; 32] {
    alloy_primitives::hex::decode(text).unwrap().try_into().unwrap()
}

fn account(address: &str) -> Account {
    Account { private_key: String::new(), address: address.to_string() }
}

fn config(source: &str, others: &[&str]) -> Config {
    Config {
        rpc_urls: vec![],
        chain_id: 1,
        erc20_address: String::new(),
        source_account: account(source),
        test_accounts: others.iter().map(|address| account(address)).collect(),
    }
}

#[test]
fn send_raw_transaction() {
    let mut cache = SignerCache::Disabled;
    let next = gravity_reth::rpc::submission::send_raw_transaction(raw(), &mut cache).unwrap();
    assert_eq!(next.raw(), &raw());
    let request = next.broadcasted();
    assert_eq!(request.origin, TransactionOrigin::Local);
    assert_eq!(request.transaction.signer, signer());
    let hash = *request.transaction.inner.tx_hash();
    assert_eq!(hash, word("a694b71e6c128a2ed8e2e0f6770bddbe52e3bb8f10e8472f9a79ab81497a8b5d"));
    assert_eq!(submission_result::<()>(Ok(hash)).unwrap(), hash);
}

#[test]
fn pool_error_is_passed_on() {
    match submission_result(Err(5u8)) {
        Err(SubmissionError::Pool(error)) => assert_eq!(error, 5),
        other => panic!("unexpected {:?}", other),
    }
}

#[test]
fn decoded_transaction_is_the_outside_one() {
    let tx = PooledTransaction::decode_2718(&raw()).unwrap();
    let other = outside();
    assert!(matches!(tx, PooledTransaction::Eip1559(_)));
    assert_eq!(*tx.tx_hash(), other.hash().0);
    assert_eq!(tx.signature().r, other.signature().r().to_be_bytes::<32>());
    assert_eq!(tx.signature().s, other.signature().s().to_be_bytes::<32>());
    assert_eq!(tx.signature().odd_y, other.signature().v());
    assert_eq!(tx.gas_limit(), other.gas_limit());
    assert_eq!(tx.gas_limit(), 21000);
    assert_eq!(tx.signature_hash(), other.signature_hash().0);
    assert_eq!(tx.encoded_2718(), &other.encoded_2718());
    assert_eq!(tx.encoded_2718(), &raw());
    assert_eq!(tx.recalculate_hash(), *tx.tx_hash());
    assert!(tx.is_broadcastable_in_full());
}

#[test]
fn rollup_transaction() {
    let mut cache = SignerCache::Enabled(GasMap::new());
    let tx = OpPooledTransaction::decode_2718(&raw()).unwrap();
    assert!(matches!(tx, OpPooledTransaction::Eip1559(_)));
    assert_eq!(*tx.tx_hash(), outside().hash().0);
    assert_eq!(tx.signature().odd_y, outside().signature().v());
    assert_eq!(tx.signature_hash(), outside().signature_hash().0);
    assert_eq!(tx.encoded_2718(), &raw());
    assert!(tx.is_broadcastable_in_full());
    assert_eq!(tx.recover_signer(&mut cache).unwrap(), signer());
    assert_eq!(tx.recover_signer_unchecked().unwrap(), signer());
    // The cache is not used.
    match &cache {
        SignerCache::Enabled(map) => assert!(get_address(map, 21000).is_none()),
        SignerCache::Disabled => panic!("the cache is enabled"),
    }
    assert!(OpPooledTransaction::decode_2718(&[3, 1]).is_err());
}

/// A transaction of the given kind with a signature that is only looked at.
fn signed_as(kind: u8) -> Vec<u8> {
    let signature = alloy_primitives::Signature::new(
        alloy_primitives::U256::from(1),
        alloy_primitives::U256::from(2),
        true,
    );
    match kind {
        0 => {
            let tx = alloy_consensus::TxLegacy { gas_limit: 7, chain_id: Some(1), ..Default::default() };
            alloy_consensus::transaction::PooledTransaction::Legacy(tx.into_signed(signature))
                .encoded_2718()
        }
        1 => {
            let tx = alloy_consensus::TxEip2930 { gas_limit: 8, ..Default::default() };
            alloy_consensus::transaction::PooledTransaction::Eip2930(tx.into_signed(signature))
                .encoded_2718()
        }
        4 => {
            let tx = alloy_consensus::TxEip7702 { gas_limit: 9, ..Default::default() };
            alloy_consensus::transaction::PooledTransaction::Eip7702(tx.into_signed(signature))
                .encoded_2718()
        }
        _ => {
            let tx = alloy_consensus::TxEip4844WithSidecar {
                tx: alloy_consensus::TxEip4844 { gas_limit: 10, ..Default::default() },
                sidecar: alloy_eips::eip7594::BlobTransactionSidecarVariant::Eip4844(Default::default()),
            };
            alloy_consensus::transaction::PooledTransaction::Eip4844(tx.into_signed(signature))
                .encoded_2718()
        }
    }
}

#[test]
fn kinds_of_transactions() {
    let legacy = PooledTransaction::decode_2718(&signed_as(0)).unwrap();
    assert!(matches!(legacy, PooledTransaction::Legacy(_)));
    assert_eq!(legacy.gas_limit(), 7);
    let eip2930 = PooledTransaction::decode_2718(&signed_as(1)).unwrap();
    assert!(matches!(eip2930, PooledTransaction::Eip2930(_)));
    assert_eq!(eip2930.gas_limit(), 8);
    let eip7702 = PooledTransaction::decode_2718(&signed_as(4)).unwrap();
    assert!(matches!(eip7702, PooledTransaction::Eip7702(_)));
    assert_eq!(eip7702.gas_limit(), 9);
    let eip4844 = PooledTransaction::decode_2718(&signed_as(3)).unwrap();
    assert!(matches!(eip4844, PooledTransaction::Eip4844(_)));
    assert_eq!(eip4844.gas_limit(), 10);
    assert!(!eip4844.is_broadcastable_in_full());
    assert!(eip7702.is_broadcastable_in_full());
    assert!(OpPooledTransaction::decode_2718(&signed_as(3)).is_err());
    assert!(matches!(
        OpPooledTransaction::decode_2718(&signed_as(4)).unwrap(),
        OpPooledTransaction::Eip7702(_)
    ));
}

#[test]
fn decoded_transactions_carry_their_hash() {
    for kind in [0, 1, 4] {
        let tx = PooledTransaction::decode_2718(&signed_as(kind)).unwrap();
        assert_eq!(*tx.tx_hash(), alloy_primitives::keccak256(tx.encoded_2718()).0);
        assert_eq!(tx.recalculate_hash(), *tx.tx_hash());
    }
    // The hash of a transaction with blobs leaves the blobs out.
    let blobs = PooledTransaction::decode_2718(&signed_as(3)).unwrap();
    assert!(*blobs.tx_hash() != alloy_primitives::keccak256(blobs.encoded_2718()).0);
    assert_eq!(*blobs.tx_hash(), alloy_primitives::keccak256(blobs.stripped_2718()).0);
    assert_eq!(blobs.recalculate_hash(), *blobs.tx_hash());
    let rollup = OpPooledTransaction::decode_2718(&signed_as(1)).unwrap();
    assert_eq!(*rollup.tx_hash(), alloy_primitives::keccak256(rollup.encoded_2718()).0);
}

#[test]
fn hash_is_calculated() {
    // Whatever hash the transaction carries.
    for kind in [0, 1, 3, 4] {
        let tx = PooledTransaction::decode_2718(&signed_as(kind)).unwrap();
        let mut other = tx.clone();
        match &mut other {
            PooledTransaction::Legacy(signed)
            | PooledTransaction::Eip2930(signed)
            | PooledTransaction::Eip1559(signed)
            | PooledTransaction::Eip4844(signed)
            | PooledTransaction::Eip7702(signed) => signed.hash = [0; 32],
        }
        assert_eq!(*other.tx_hash(), [0; 32]);
        assert_eq!(other.recalculate_hash(), *tx.tx_hash());
    }
}

#[test]
fn signer_with_and_without_the_check() {
    let tx = PooledTransaction::decode_2718(&raw()).unwrap();
    let mut cache = SignerCache::Disabled;
    assert_eq!(tx.recover_signer(&mut cache).unwrap(), signer());
    assert_eq!(tx.try_recover(&mut cache).unwrap(), signer());
    assert_eq!(tx.recover_signer_unchecked().unwrap(), signer());
    assert_eq!(tx.try_recover_unchecked().unwrap(), signer());
    // What the buffer holds before does not matter.
    let mut buf = vec![1, 2, 3];
    assert_eq!(tx.recover_signer_unchecked_with_buf(&mut buf).unwrap(), signer());
    assert_eq!(alloy_primitives::keccak256(&buf).0, tx.signature_hash());
}

#[test]
fn high_s_is_only_recovered_unchecked() {
    let tx = PooledTransaction::decode_2718(&raw()).unwrap();
    let hash = tx.signature_hash();
    let order = alloy_primitives::U256::from_be_bytes(word(
        "fffffffffffffffffffffffffffffffebaaedce6af48a03bbfd25e8cd0364141",
    ));
    // The other signature of the same message and key.
    let s = order - alloy_primitives::U256::from_be_bytes(tx.signature().s);
    let mirrored = Signature {
        r: tx.signature().r,
        s: s.to_be_bytes(),
        odd_y: !tx.signature().odd_y,
    };
    assert!(recover_signer(&mirrored, &hash).is_err());
    assert_eq!(recover_signer_unchecked(&mirrored, &hash).unwrap(), signer());
    assert_eq!(recover_signer(tx.signature(), &hash).unwrap(), signer());
}

#[test]
fn half_of_the_order() {
    let outside = alloy_consensus::crypto::SECP256K1N_HALF.to_be_bytes::<32>();
    assert_eq!(SECP256K1N_HALF, outside);
}

#[test]
fn zero_signature_is_no_signature() {
    let zero = Signature { r: [0; 32], s: [0; 32], odd_y: false };
    assert!(recover_signer(&zero, &[1; 32]).is_err());
    assert!(recover_signer_unchecked(&zero, &[1; 32]).is_err());
    assert_eq!(RecoveryError.message(), "Failed to recover the signer");
}

#[test]
fn recovered_transactions() {
    let mut cache = SignerCache::Disabled;
    let tx = PooledTransaction::decode_2718(&raw()).unwrap();
    let cloned = tx.try_clone_into_recovered(&mut cache).unwrap();
    assert_eq!(cloned.signer, signer());
    assert_eq!(cloned.inner.tx_hash(), tx.tx_hash());
    assert_eq!(cloned.inner.encoded_2718(), tx.encoded_2718());
    let unchecked = cloned.inner.into_recovered_unchecked().unwrap();
    assert_eq!(unchecked.signer, signer());
    let given = unchecked.inner.with_signer([4; 20]);
    assert_eq!(given.signer, [4; 20]);
    let moved = tx.try_into_recovered(&mut cache).unwrap();
    assert_eq!(moved.signer, signer());
    let invalid = PooledTransaction::decode_2718(&signed_as(0)).unwrap();
    match invalid.try_clone_into_recovered(&mut cache) {
        Ok(recovered) => assert!(recovered.signer != signer()),
        Err(RecoveryError) => {}
    }
}

#[test]
fn unsigned_transaction_is_given_back() {
    let mut cache = SignerCache::Disabled;
    let mut tx = PooledTransaction::decode_2718(&raw()).unwrap();
    if let PooledTransaction::Eip1559(signed) = &mut tx {
        signed.signature = Signature { r: [0; 32], s: [0; 32], odd_y: false };
    }
    assert!(tx.try_recover(&mut cache).is_err());
    assert!(tx.recover_signer_unchecked().is_err());
    assert!(tx.try_clone_into_recovered(&mut cache).is_err());
    let back = tx.try_into_recovered(&mut cache).unwrap_err();
    assert_eq!(back.encoded_2718(), &raw());
    assert!(back.into_recovered_unchecked().is_err());
}

#[test]
fn gas_limits() {
    assert_eq!(calculate_gas_limit("0xf39Fd6e51aad88F6F4ce6aB8827279cffFb92266"), 39725);
    assert_eq!(calculate_gas_limit("f39Fd6e51aad88F6F4ce6aB8827279cffFb92266"), 39725);
    assert_eq!(calculate_gas_limit("0x70997970C51812dc3A010C7d01b50e0d17dc79C8"), 27288);
    assert_eq!(calculate_gas_limit("00000001"), 21001);
    assert_eq!(calculate_gas_limit("ffffffff00"), 68295);
    // Too short, of odd length, or no digits.
    assert_eq!(calculate_gas_limit("0xffffff"), 21000);
    assert_eq!(calculate_gas_limit("fffffff"), 21000);
    assert_eq!(calculate_gas_limit("not an address"), 21000);
    assert_eq!(calculate_gas_limit(""), 21000);
    assert_eq!(calculate_gas_limit("é"), 21000);
    // The prefix may stand there twice, and in upper case.
    assert_eq!(calculate_gas_limit("0x0x00000001"), 21001);
    assert_eq!(calculate_gas_limit("0X00000001"), 21001);
}

#[test]
fn gas_map_of_the_accounts() {
    let map = init_gas_map(&config("0x0000000100", &["0x0000000200", "0x0000000201", "bad"]));
    assert_eq!(get_address(&map, 21001).unwrap(), "0x0000000100");
    // The later account of two with the same gas limit.
    assert_eq!(get_address(&map, 21002).unwrap(), "0x0000000201");
    assert_eq!(get_address(&map, 21000).unwrap(), "bad");
    assert_eq!(get_address(&map, 21003), None);
}

#[test]
fn signer_does_not_depend_on_the_cache() {
    let known = "0xf39Fd6e51aad88F6F4ce6aB8827279cffFb92266";
    let mut map = GasMap::new();
    map.insert(21000, known.to_string());
    let mut cache = SignerCache::Enabled(map);
    let tx = PooledTransaction::decode_2718(&raw()).unwrap();
    assert_eq!(tx.recover_signer(&mut cache).unwrap(), signer());
    assert_eq!(tx.try_recover(&mut cache).unwrap(), signer());
    // What was known stays.
    let address: alloy_primitives::Address = known.parse().unwrap();
    assert_eq!(cache.known(21000), Some(address.into_array()));
}

#[test]
fn cache_gives_back_the_signer() {
    let mut cache = SignerCache::Enabled(GasMap::new());
    let tx = PooledTransaction::decode_2718(&raw()).unwrap();
    assert_eq!(tx.recover_signer(&mut cache).unwrap(), signer());
    match &cache {
        SignerCache::Enabled(map) => {
            let text = alloy_primitives::Address::new(signer()).to_string();
            assert_eq!(get_address(map, 21000).unwrap(), text);
        }
        SignerCache::Disabled => panic!("the cache is enabled"),
    }
    assert!(cache.is_readable(21000));
    assert_eq!(cache.known(21000), Some(signer()));
    // A transaction that nobody signed has no signer, though one is known for its gas limit.
    let mut other = tx.clone();
    if let PooledTransaction::Eip1559(signed) = &mut other {
        signed.signature = Signature { r: [0; 32], s: [0; 32], odd_y: false };
    }
    assert!(other.recover_signer(&mut cache).is_err());
}

#[test]
fn cache_learns_nothing_from_an_invalid_signature() {
    let mut cache = SignerCache::Enabled(GasMap::new());
    let mut tx = PooledTransaction::decode_2718(&raw()).unwrap();
    if let PooledTransaction::Eip1559(signed) = &mut tx {
        signed.signature = Signature { r: [0; 32], s: [0; 32], odd_y: false };
    }
    assert!(tx.recover_signer(&mut cache).is_err());
    match &cache {
        SignerCache::Enabled(map) => assert_eq!(get_address(map, 21000), None),
        SignerCache::Disabled => panic!("the cache is enabled"),
    }
}

#[test]
fn unreadable_entries_are_noticed() {
    let mut map = GasMap::new();
    map.insert(21000, "no address".to_string());
    map.insert(1, "0x00".to_string());
    let mut cache = SignerCache::Enabled(map);
    assert!(!cache.is_readable(21000));
    assert!(!cache.is_readable(1));
    assert!(cache.is_readable(2));
    assert_eq!(recover_raw_transaction(&raw(), &mut cache).unwrap().signer, signer());
}

#[test]
fn refused_raw_transactions() {
    let mut cache = SignerCache::Disabled;
    assert_eq!(
        recover_raw_transaction(&[], &mut cache).unwrap_err(),
        RawTransactionError::EmptyRawTransactionData
    );
    assert_eq!(
        recover_raw_transaction(&[2, 1], &mut cache).unwrap_err(),
        RawTransactionError::FailedToDecodeSignedTransaction
    );
    // A high `s` value.
    let mut raw = raw();
    let at = raw.len() - 32;
    raw[at] = 0xff;
    assert_eq!(
        recover_raw_transaction(&raw, &mut cache).unwrap_err(),
        RawTransactionError::InvalidTransactionSignature
    );
    assert_eq!(
        gravity_reth::rpc::submission::send_raw_transaction(raw, &mut cache).unwrap_err(),
        RawTransactionError::InvalidTransactionSignature
    );
}

#[test]
fn accepted_raw_transactions() {
    let mut cache = SignerCache::Enabled(GasMap::new());
    let recovered = recover_raw_transaction(&raw(), &mut cache).unwrap();
    assert_eq!(recovered.signer, signer());
    let recovered = recover_raw_transaction(&raw(), &mut cache).unwrap();
    assert_eq!(recovered.signer, signer());
    let next = gravity_reth::rpc::submission::send_raw_transaction(raw(), &mut cache).unwrap();
    assert_eq!(next.broadcasted().transaction.signer, signer());
}

#[test]
fn known_and_learned_signers() {
    let mut cache = SignerCache::Enabled(GasMap::new());
    assert_eq!(cache.known(5), None);
    cache.learn(5, &signer());
    assert_eq!(cache.known(5), Some(signer()));
    assert_eq!(cache.known(6), None);
    cache.learn(5, &[1; 20]);
    assert_eq!(cache.known(5), Some(signer()));
    let mut disabled = SignerCache::Disabled;
    disabled.learn(5, &signer());
    assert_eq!(disabled.known(5), None);
}
