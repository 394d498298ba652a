use gravity_reth::relayer::discovery::{
    DiscoveryError, LogsReply, SearchStep, StartBlockSearch, DISCOVERY_CHUNK_SIZE,
};
use gravity_reth::relayer::event::{signature_hash, Log, OracleData};
use gravity_reth::relayer::source::{
    BlockchainEventSource, SourceError, SourceType, MAX_BLOCKS_PER_POLL,
};

const ANVIL_CHAIN_ID: u64 = 31337;

fn anvil_portal_address() -> [u8; 20] {
    let address: alloy_primitives::Address =
        "0xe7f1725E7734CE288F8367e1Bb143E90bb3F0512".parse().unwrap();
    address.into_array()
}

/// A word that ends with the number.
fn word(number: u128) -> [u8; 32] {
    let mut word = [0u8; 32];
    word[16..].copy_from_slice(&number.to_be_bytes());
    word
}

fn message(nonce: u128, data: &[u8]) -> Log {
    Log {
        topics: vec![signature_hash(), word(nonce)],
        data: data.to_vec(),
        block_number: Some(7),
    }
}

fn nonces(data: &[OracleData]) -> Vec<u128> {
    data.iter().map(|message| message.nonce).collect()
}

#[test]
fn test_source_creation() {
    let source = BlockchainEventSource::new(ANVIL_CHAIN_ID, anvil_portal_address(), 0);
    assert_eq!(source.source_type(), SourceType::Blockchain);
    assert_eq!(source.source_id(), word(ANVIL_CHAIN_ID as u128));
    assert_eq!(source.cursor(), 0);
    assert_eq!(source.last_nonce(), None);
}

#[test]
fn test_poll_anvil_events() {
    let mut source = BlockchainEventSource::new(ANVIL_CHAIN_ID, anvil_portal_address(), 0);
    let filter = source.poll_filter(20).unwrap();
    assert_eq!(filter.address, anvil_portal_address());
    assert_eq!((filter.from_block, filter.to_block), (0, 20));
    let events = source.poll(20, &vec![message(1, b"payload")]);
    assert_eq!(source.cursor(), 20);
    let first_event = &events[0];
    assert!(!first_event.payload.is_empty(), "Payload should not be empty");
}

#[test]
fn event_signature() {
    assert_eq!(
        signature_hash(),
        alloy_primitives::keccak256("MessageSent(uint128,bytes)").0
    );
}

#[test]
fn payload_is_the_encoded_message() {
    let mut source = BlockchainEventSource::new(1, [1u8; 20], 0);
    let data: Vec<u8> = (0..33).collect();
    let events = source.poll(5, &vec![message(u128::MAX - 1, &data)]);
    assert_eq!(events.len(), 1);
    let mut expected = Vec::new();
    expected.extend(word(32));
    expected.extend(word(u128::MAX - 1));
    expected.extend(word(64));
    expected.extend(word(33));
    expected.extend(&data);
    expected.extend([0u8; 31]);
    assert_eq!(events[0].payload, expected);
    let (nonce, bytes) = <(u128, alloy_primitives::Bytes) as alloy_sol_types::SolValue>::abi_decode(
        &events[0].payload,
    )
    .unwrap();
    assert_eq!(nonce, u128::MAX - 1);
    assert_eq!(bytes.to_vec(), data);
}

#[test]
fn payload_of_no_bytes_and_of_a_full_word() {
    let mut source = BlockchainEventSource::new(1, [1u8; 20], 0);
    let events = source.poll(5, &vec![message(1, &[]), message(2, &[9u8; 32])]);
    let mut empty = Vec::new();
    empty.extend(word(32));
    empty.extend(word(1));
    empty.extend(word(64));
    empty.extend(word(0));
    assert_eq!(events[0].payload, empty);
    let mut full = Vec::new();
    full.extend(word(32));
    full.extend(word(2));
    full.extend(word(64));
    full.extend(word(32));
    full.extend([9u8; 32]);
    assert_eq!(events[1].payload, full);
}

#[test]
fn only_the_last_half_of_the_topic_counts() {
    let mut topic = word(5);
    topic[0] = 0xff;
    let log = Log { topics: vec![signature_hash(), topic], data: vec![], block_number: None };
    assert_eq!(log.nonce(), Some(5));
    let log = Log { topics: vec![signature_hash()], data: vec![], block_number: None };
    assert_eq!(log.nonce(), None);
}

#[test]
fn polls_return_each_nonce_once() {
    let mut source = BlockchainEventSource::new(1, [1u8; 20], 0);
    let first = source.poll(10, &vec![message(1, b"a"), message(3, b"b"), message(2, b"c")]);
    assert_eq!(nonces(&first), vec![1, 3, 2]);
    assert_eq!(source.last_nonce(), Some(3));
    // What came already, and what has no nonce, is left out.
    let bare = Log { topics: vec![signature_hash()], data: vec![], block_number: None };
    let second = source.poll(20, &vec![message(3, b"b"), bare, message(4, b"d")]);
    assert_eq!(nonces(&second), vec![4]);
    assert_eq!(source.last_nonce(), Some(4));
    let third = source.poll(30, &vec![message(4, b"d")]);
    assert!(third.is_empty());
    assert_eq!(source.last_nonce(), Some(4));
    assert_eq!(source.cursor(), 30);
}

#[test]
fn entries_with_one_nonce_in_one_poll_come_once() {
    let mut source = BlockchainEventSource::new(1, [1u8; 20], 0);
    let events = source.poll(10, &vec![message(1, b"a"), message(2, b"x"), message(1, b"b")]);
    assert_eq!(nonces(&events), vec![1, 2]);
    // The first one counts.
    let mut other = BlockchainEventSource::new(1, [1u8; 20], 0);
    let first = other.poll(10, &vec![message(1, b"a")]);
    assert_eq!(events[0].payload, first[0].payload);
}

#[test]
fn every_message_is_returned_once() {
    // Block `n` holds the messages `2 * n` and `2 * n + 1`, the latter twice.
    let logs_of = |from: u64, to: u64| -> Vec<Log> {
        (from..=to)
            .flat_map(|block| {
                let nonce = 2 * block as u128;
                vec![message(nonce, b"a"), message(nonce + 1, b"b"), message(nonce + 1, b"b")]
            })
            .collect()
    };
    let mut source = BlockchainEventSource::new(1, [1u8; 20], 5);
    let mut seen = Vec::new();
    for finalized in [4, 5, 9, 9, 350, 350, 350, 350, 360] {
        let logs = match source.poll_filter(finalized) {
            Some(filter) => logs_of(filter.from_block, filter.to_block),
            None => vec![],
        };
        seen.extend(nonces(&source.poll(finalized, &logs)));
    }
    let expected: Vec<u128> = (10..=721).collect();
    assert_eq!(seen, expected);
}

#[test]
fn polls_take_a_limited_number_of_blocks() {
    let mut source = BlockchainEventSource::new(1, [1u8; 20], 1000);
    let filter = source.poll_filter(5000).unwrap();
    assert_eq!((filter.from_block, filter.to_block), (1000, 999 + MAX_BLOCKS_PER_POLL));
    assert_eq!(filter.event_signature, signature_hash());
    assert_eq!(filter.topic1, None);
    source.poll(5000, &vec![]);
    let filter = source.poll_filter(1150).unwrap();
    assert_eq!((filter.from_block, filter.to_block), (1100, 1150));
    let filter = source.poll_filter(5000).unwrap();
    assert_eq!(filter.to_block - filter.from_block + 1, MAX_BLOCKS_PER_POLL);
}

#[test]
fn nothing_is_polled_up_to_the_cursor() {
    let mut source = BlockchainEventSource::new(1, [1u8; 20], 1000);
    assert!(source.poll_filter(1000).is_none());
    assert!(source.poll_filter(10).is_none());
    let events = source.poll(1000, &vec![message(1, b"a")]);
    assert!(events.is_empty());
    assert_eq!(source.cursor(), 1000);
    assert_eq!(source.last_nonce(), None);
}

#[test]
fn last_nonce_can_be_set() {
    let mut source = BlockchainEventSource::new(1, [1u8; 20], 0);
    source.set_last_nonce(8);
    assert_eq!(source.last_nonce(), Some(8));
    assert_eq!(nonces(&source.poll(5, &vec![message(8, b""), message(9, b"")])), vec![9]);
    source.set_last_nonce(0);
    assert_eq!(source.last_nonce(), None);
}

#[test]
fn discovered_block_is_where_polling_begins() {
    let found = BlockchainEventSource::new_with_discovery(1, [1u8; 20], 10, 5, Ok(700));
    assert_eq!((found.cursor(), found.last_nonce()), (700, Some(5)));
    let failed = BlockchainEventSource::new_with_discovery(
        1,
        [1u8; 20],
        10,
        5,
        Err(DiscoveryError::FinalizedBlockUnknown),
    );
    assert_eq!((failed.cursor(), failed.last_nonce()), (10, Some(5)));
    let cold = BlockchainEventSource::new_with_discovery(1, [1u8; 20], 10, 0, Ok(700));
    assert_eq!((cold.cursor(), cold.last_nonce()), (10, None));
}

#[test]
fn search_goes_back_in_chunks() {
    let search = StartBlockSearch::begin([2u8; 20], 5, 100, Some(1250)).unwrap();
    let filter = search.filter();
    assert_eq!(filter.address, [2u8; 20]);
    assert_eq!(filter.event_signature, signature_hash());
    assert_eq!(filter.topic1, Some(word(5)));
    assert_eq!((filter.from_block, filter.to_block), (751, 1250));
    assert_eq!(filter.to_block - filter.from_block + 1, DISCOVERY_CHUNK_SIZE);
    let search = match search.step(&LogsReply::Failed) {
        SearchStep::Continue(search) => search,
        step => panic!("unexpected {:?}", step),
    };
    let filter = search.filter();
    assert_eq!((filter.from_block, filter.to_block), (251, 750));
    let search = match search.step(&LogsReply::Logs(vec![])) {
        SearchStep::Continue(search) => search,
        step => panic!("unexpected {:?}", step),
    };
    let filter = search.filter();
    assert_eq!((filter.from_block, filter.to_block), (100, 250));
    match search.step(&LogsReply::Logs(vec![message(5, b"")])) {
        SearchStep::Found(block) => assert_eq!(block, 7),
        step => panic!("unexpected {:?}", step),
    }
    match search.step(&LogsReply::Logs(vec![])) {
        SearchStep::Failed(error) => assert_eq!(
            error,
            DiscoveryError::NotFound { target_nonce: 5, config_start_block: 100, finalized: 1250 }
        ),
        step => panic!("unexpected {:?}", step),
    }
}

#[test]
fn entry_without_a_block_is_passed_over() {
    let search = StartBlockSearch::begin([2u8; 20], 5, 0, Some(10)).unwrap();
    let mut log = message(5, b"");
    log.block_number = None;
    match search.step(&LogsReply::Logs(vec![log])) {
        SearchStep::Failed(DiscoveryError::NotFound { finalized, .. }) => assert_eq!(finalized, 10),
        step => panic!("unexpected {:?}", step),
    }
}

#[test]
fn search_needs_finalized_blocks() {
    assert_eq!(
        StartBlockSearch::begin([2u8; 20], 5, 10, None).unwrap_err(),
        DiscoveryError::FinalizedBlockUnknown
    );
    assert_eq!(
        StartBlockSearch::begin([2u8; 20], 5, 10, Some(10)).unwrap_err(),
        DiscoveryError::NothingFinalized { finalized: 10, config_start_block: 10 }
    );
}

#[test]
fn source_from_its_configuration() {
    let address = alloy_primitives::Address::new(anvil_portal_address());
    let config = alloy_sol_types::SolValue::abi_encode(&(
        String::from("http://localhost:8546"),
        address,
        42u64,
    ));
    let (url, source) =
        BlockchainEventSource::from_config(&word(ANVIL_CHAIN_ID as u128), &config).unwrap();
    assert_eq!(url, "http://localhost:8546");
    assert_eq!(source.cursor(), 42);
    assert_eq!(source.last_nonce(), None);
    assert_eq!(source.source_id(), word(ANVIL_CHAIN_ID as u128));
    assert_eq!(source.poll_filter(50).unwrap().address, anvil_portal_address());
    let (_, source) =
        BlockchainEventSource::from_config(&word(u64::MAX as u128), &config).unwrap();
    assert_eq!(source.source_id(), word(u64::MAX as u128));
}

#[test]
fn bad_configurations() {
    let undecodable = BlockchainEventSource::from_config(&word(1), &[1, 2, 3]);
    assert!(matches!(undecodable, Err(SourceError::DecodeConfig(_))));
    let config = alloy_sol_types::SolValue::abi_encode(&(
        String::from("x"),
        alloy_primitives::Address::ZERO,
        1u64,
    ));
    let too_large = BlockchainEventSource::from_config(&word(u64::MAX as u128 + 1), &config);
    assert!(matches!(too_large, Err(SourceError::ChainIdTooLarge)));
    let mut high = word(1);
    high[0] = 1;
    let too_large = BlockchainEventSource::from_config(&high, &config);
    assert!(matches!(too_large, Err(SourceError::ChainIdTooLarge)));
}

#[test]
fn every_block_is_polled_once() {
    let mut source = BlockchainEventSource::new(1, [1u8; 20], 3);
    let mut polled = Vec::new();
    for finalized in [50, 50, 400, 400, 400, 401, 401] {
        if let Some(filter) = source.poll_filter(finalized) {
            polled.extend(filter.from_block..=filter.to_block);
        }
        source.poll(finalized, &vec![]);
    }
    let expected: Vec<u64> = (3..=source.cursor()).collect();
    assert_eq!(polled, expected);
    assert_eq!(source.cursor(), 401);
}

#[test]
fn chunks_cover_all_blocks() {
    let mut search = StartBlockSearch::begin([2u8; 20], 5, 7, Some(2600)).unwrap();
    let mut covered = vec![0; 2601];
    loop {
        let filter = search.filter();
        assert!(filter.to_block - filter.from_block < DISCOVERY_CHUNK_SIZE);
        for block in filter.from_block..=filter.to_block {
            covered[block as usize] += 1;
        }
        match search.step(&LogsReply::Failed) {
            SearchStep::Continue(next) => search = next,
            SearchStep::Failed(_) => break,
            SearchStep::Found(_) => panic!("no reply gives a block"),
        }
    }
    assert!(covered[7..].iter().all(|count| *count == 1));
    assert!(covered[..7].iter().all(|count| *count == 0));
}

#[test]
fn source_from_fields() {
    let source = BlockchainEventSource::from_fields(&word(5), [3u8; 20], 9).unwrap();
    assert_eq!(source.source_id(), word(5));
    assert_eq!(source.cursor(), 9);
    assert_eq!(source.last_nonce(), None);
    let too_large = BlockchainEventSource::from_fields(&[1u8; 32], [3u8; 20], 9);
    assert!(matches!(too_large, Err(SourceError::ChainIdTooLarge)));
}
