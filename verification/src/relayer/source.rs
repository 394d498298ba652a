//! The source of messages from the portal contract of another chain.
use crate::bytes::{be_value, lemma_be_value_join, lemma_pow256, number_at, to_be, word_of};
use crate::crypto::keccak::keccak256_digest;
use crate::relayer::discovery::DiscoveryError;
use crate::relayer::event::{
    contains_nonce, encode_message, encoded_message, fresh_messages, greatest_nonce, oracle_views,
    signature_hash, Log, LogFilter, OracleData, OracleModel, MESSAGE_SENT,
};
use crate::relayer::laws::{
    carries, law_fresh_entries_are_returned, law_messages_are_the_first_entries,
    law_poll_moves_the_cursor,
};
use vstd::prelude::*;

verus! {

/// Maximum blocks to poll in one request.
pub const MAX_BLOCKS_PER_POLL: u64 = 100;

/// The kinds of data sources.
#[derive(Debug, Clone, Copy, PartialEq, Eq, Structural)]
pub enum SourceType {
    Blockchain,
}

/// Why a source cannot be made from its configuration.
#[derive(Debug)]
pub enum SourceError {
    /// The configuration cannot be decoded.
    DecodeConfig(alloy_sol_types::Error),
    /// The chain ID is too large.
    ChainIdTooLarge,
}

/// The error of the decoder.
#[verifier::external_type_specification]
#[verifier::external_body]
pub struct ExSolError(alloy_sol_types::Error);

/// The RPC endpoint, the portal address and the start block that the bytes are the ABI encoding
/// of, as one value `(string, address, uint64)`; `None` where they are not.
pub uninterp spec fn decoded_config(config: Seq<u8>) -> Option<(Seq<char>, Seq<u8>, u64)>;

/// Calls `alloy_sol_types::SolValue::abi_decode` for `(String, Address, u64)`: the value that the
/// bytes are the encoding of, a function of the bytes, or an error where they are not one.
#[verifier::external_body]
fn decode_config(config: &[u8]) -> (r: Result<(String, [u8; 20], u64), alloy_sol_types::Error>)
    ensures
        match r {
            Ok(value) => decoded_config(config@) == Some((value.0@, value.1@, value.2)),
            Err(_) => decoded_config(config@) is None,
        },
{
    <(String, alloy_primitives::Address, u64) as alloy_sol_types::SolValue>::abi_decode(config)
        .map(|(url, portal, start)| (url, portal.into_array(), start))
}

/// Blockchain event source for monitoring the `MessageSent` events of the portal contract.
///
/// The last nonce that was returned is kept, so that each message is consumed exactly once.
#[derive(Debug)]
pub struct BlockchainEventSource {
    /// Chain ID.
    chain_id: u64,
    /// Portal contract address.
    portal_address: [u8; 20],
    /// Current block cursor for polling: the start block, and then the last block polled.
    cursor: u64,
    /// Whether the start block has been polled.
    begun: bool,
    /// Last nonce that was returned; zero where none was.
    last_returned_nonce: u128,
}

/// What a source knows.
pub struct SourceModel {
    pub chain_id: u64,
    pub portal_address: [u8; 20],
    /// The start block, and then the last block that has been polled.
    pub cursor: u64,
    /// Whether the start block has been polled.
    pub begun: bool,
    /// No nonce up to this one is returned any more.
    pub last_nonce: u128,
}

impl View for BlockchainEventSource {
    type V = SourceModel;

    closed spec fn view(&self) -> SourceModel {
        SourceModel {
            chain_id: self.chain_id,
            portal_address: self.portal_address,
            cursor: self.cursor,
            begun: self.begun,
            last_nonce: self.last_returned_nonce,
        }
    }
}

impl SourceModel {
    /// The first block of the next poll: the start block, and later the one behind the cursor.
    pub open spec fn next_block(self) -> int {
        if self.begun {
            self.cursor + 1
        } else {
            self.cursor as int
        }
    }

    /// The last block of the next poll.
    pub open spec fn poll_end(self, finalized: u64) -> int {
        if self.next_block() + MAX_BLOCKS_PER_POLL - 1 < finalized {
            self.next_block() + MAX_BLOCKS_PER_POLL - 1
        } else {
            finalized as int
        }
    }

    /// Whether there are blocks to poll: some block behind the cursor is finalized.
    pub open spec fn can_poll(self, finalized: u64) -> bool {
        finalized > self.cursor
    }

    /// The messages that a poll returns.
    pub open spec fn polled(self, finalized: u64, logs: Seq<Log>) -> Seq<OracleModel> {
        if self.can_poll(finalized) {
            fresh_messages(logs, self.last_nonce)
        } else {
            Seq::empty()
        }
    }

    /// What the source knows after a poll.
    pub open spec fn after_poll(self, finalized: u64, logs: Seq<Log>) -> SourceModel {
        if self.can_poll(finalized) {
            SourceModel {
                cursor: self.poll_end(finalized) as u64,
                begun: true,
                last_nonce: greatest_nonce(self.polled(finalized, logs), self.last_nonce),
                ..self
            }
        } else {
            self
        }
    }
}

impl BlockchainEventSource {
    /// A source that begins with the block in which the latest message was found. Where the search
    /// failed, or no message was there to search for, it begins with the configured block.
    pub fn new_with_discovery(
        chain_id: u64,
        portal_address: [u8; 20],
        config_start_block: u64,
        latest_onchain_nonce: u128,
        discovered: Result<u64, DiscoveryError>,
    ) -> (r: Self)
        ensures
            r@ == (SourceModel {
                chain_id,
                portal_address,
                cursor: if latest_onchain_nonce > 0 && discovered is Ok {
                    discovered->Ok_0
                } else {
                    config_start_block
                },
                begun: false,
                last_nonce: latest_onchain_nonce,
            }),
    {
        let start_block: u64 = if latest_onchain_nonce > 0 {
            match discovered {
                Ok(block) => block,
                Err(_) => config_start_block,
            }
        } else {
            config_start_block
        };
        BlockchainEventSource {
            chain_id,
            portal_address,
            cursor: start_block,
            begun: false,
            last_returned_nonce: latest_onchain_nonce,
        }
    }

    /// A source that begins with the given block, with no message returned.
    pub fn new(chain_id: u64, portal_address: [u8; 20], start_block: u64) -> (r: Self)
        ensures
            r@ == (SourceModel {
                chain_id,
                portal_address,
                cursor: start_block,
                begun: false,
                last_nonce: 0,
            }),
    {
        Self::new_with_discovery(
            chain_id,
            portal_address,
            start_block,
            0,
            Err(DiscoveryError::FinalizedBlockUnknown),
        )
    }

    /// A source as an encoded configuration describes it, and the RPC endpoint to poll. The
    /// source ID is the chain ID, the most significant byte first.
    pub fn from_config(source_id: &[u8; 32], config: &[u8]) -> (r: Result<
        (String, Self),
        SourceError,
    >)
        ensures
            match decoded_config(config@) {
                None => r matches Err(error) && error is DecodeConfig,
                Some(fields) => if be_value(source_id@) > u64::MAX {
                    r matches Err(error) && error is ChainIdTooLarge
                } else {
                    &&& r matches Ok(source)
                    &&& source.0@ == fields.0
                    &&& source.1@.chain_id == be_value(source_id@)
                    &&& source.1@.portal_address@ == fields.1
                    &&& source.1@.cursor == fields.2
                    &&& !source.1@.begun
                    &&& source.1@.last_nonce == 0
                },
            },
    {
        match decode_config(config) {
            Ok((rpc_url, portal_address, start_block)) => match Self::from_fields(
                source_id,
                portal_address,
                start_block,
            ) {
                Ok(source) => Ok((rpc_url, source)),
                Err(error) => Err(error),
            },
            Err(error) => Err(SourceError::DecodeConfig(error)),
        }
    }

    /// A source as the fields of a configuration describe it. The source ID is the chain ID, the
    /// most significant byte first.
    pub fn from_fields(source_id: &[u8; 32], portal_address: [u8; 20], start_block: u64) -> (r:
        Result<Self, SourceError>)
        ensures
            match r {
                Ok(source) => {
                    &&& be_value(source_id@) <= u64::MAX
                    &&& source@ == (SourceModel {
                        chain_id: be_value(source_id@) as u64,
                        portal_address,
                        cursor: start_block,
                        begun: false,
                        last_nonce: 0,
                    })
                },
                Err(error) => be_value(source_id@) > u64::MAX && error is ChainIdTooLarge,
            },
    {
        match chain_id_of(source_id) {
            Some(chain_id) => Ok(Self::new(chain_id, portal_address, start_block)),
            None => Err(SourceError::ChainIdTooLarge),
        }
    }

    /// The current block cursor position.
    pub fn cursor(&self) -> (r: u64)
        ensures
            r == self@.cursor,
    {
        self.cursor
    }

    /// The last nonce that was returned.
    pub fn last_nonce(&self) -> (r: Option<u128>)
        ensures
            r == (if self@.last_nonce > 0 {
                Some(self@.last_nonce)
            } else {
                None
            }),
    {
        let n: u128 = self.last_returned_nonce;
        if n > 0 {
            Some(n)
        } else {
            None
        }
    }

    /// Sets the last nonce (used when initializing from on-chain state).
    pub fn set_last_nonce(&mut self, nonce: u128)
        ensures
            final(self)@ == (SourceModel { last_nonce: nonce, ..old(self)@ }),
    {
        self.last_returned_nonce = nonce;
    }

    /// The kind of this source.
    pub fn source_type(&self) -> (r: SourceType)
        ensures
            r == SourceType::Blockchain,
    {
        SourceType::Blockchain
    }

    /// The chain ID as a word, the most significant byte first.
    pub fn source_id(&self) -> (r: [u8; 32])
        ensures
            r@ == to_be(self@.chain_id as nat, 32),
    {
        word_of(self.chain_id as u128)
    }

    /// The last block of the next poll, where there are blocks to poll.
    fn next_end(&self, finalized_block: u64) -> (r: Option<u64>)
        requires
            self@.cursor + MAX_BLOCKS_PER_POLL <= u64::MAX,
        ensures
            match r {
                Some(end) => self@.can_poll(finalized_block) && end == self@.poll_end(
                    finalized_block,
                ),
                None => !self@.can_poll(finalized_block),
            },
    {
        if finalized_block <= self.cursor {
            return None;
        }
        let limit: u64 = if self.begun {
            self.cursor + MAX_BLOCKS_PER_POLL
        } else {
            self.cursor + (MAX_BLOCKS_PER_POLL - 1)
        };
        if limit < finalized_block {
            Some(limit)
        } else {
            Some(finalized_block)
        }
    }

    /// The logs to ask for in a poll: those of the event in the blocks behind the cursor, and in
    /// the first poll in the start block too, up to the finalized one and no more than
    /// [`MAX_BLOCKS_PER_POLL`]. `None` where no block behind the cursor is finalized.
    pub fn poll_filter(&self, finalized_block: u64) -> (r: Option<LogFilter>)
        requires
            self@.cursor + MAX_BLOCKS_PER_POLL <= u64::MAX,
        ensures
            match r {
                Some(filter) => {
                    &&& self@.can_poll(finalized_block)
                    &&& filter.address == self@.portal_address
                    &&& filter.event_signature@ == keccak256_digest(MESSAGE_SENT@)
                    &&& filter.topic1 is None
                    &&& filter.from_block == self@.next_block()
                    &&& filter.to_block == self@.poll_end(finalized_block)
                    &&& filter.from_block <= filter.to_block <= finalized_block
                    &&& filter.to_block - filter.from_block + 1 <= MAX_BLOCKS_PER_POLL
                },
                None => !self@.can_poll(finalized_block),
            },
            r is Some <==> finalized_block > self@.cursor,
            r matches Some(filter) ==> {
                &&& filter.from_block == if self@.begun {
                    self@.cursor + 1
                } else {
                    self@.cursor as int
                }
                &&& filter.to_block == finalized_block || filter.to_block == filter.from_block + 99
                &&& filter.to_block <= filter.from_block + 99
            },
    {
        match self.next_end(finalized_block) {
            Some(to_block) => Some(
                LogFilter {
                    address: self.portal_address,
                    event_signature: signature_hash(),
                    topic1: None,
                    from_block: if self.begun {
                        self.cursor + 1
                    } else {
                        self.cursor
                    },
                    to_block,
                },
            ),
            None => None,
        }
    }

    /// Takes the logs that [`Self::poll_filter`] asked for, and returns the messages whose nonce is
    /// greater than the last one returned, each nonce once. The cursor moves on, and the greatest
    /// nonce returned is the last one from then on.
    pub fn poll(&mut self, finalized_block: u64, logs: &Vec<Log>) -> (r: Vec<OracleData>)
        requires
            old(self)@.cursor + MAX_BLOCKS_PER_POLL <= u64::MAX,
        ensures
            oracle_views(r@) == old(self)@.polled(finalized_block, logs@),
            final(self)@ == old(self)@.after_poll(finalized_block, logs@),
            final(self)@.chain_id == old(self)@.chain_id,
            final(self)@.portal_address == old(self)@.portal_address,
            finalized_block <= old(self)@.cursor ==> r@.len() == 0 && final(self)@ == old(self)@,
            finalized_block > old(self)@.cursor ==> {
                let first = if old(self)@.begun {
                    old(self)@.cursor + 1
                } else {
                    old(self)@.cursor as int
                };
                &&& final(self)@.begun
                &&& final(self)@.cursor == finalized_block || final(self)@.cursor == first + 99
                &&& final(self)@.cursor <= finalized_block
                &&& final(self)@.cursor <= first + 99
                &&& final(self)@.last_nonce >= old(self)@.last_nonce
                &&& final(self)@.last_nonce == old(self)@.last_nonce || exists|k: int|
                    0 <= k < r@.len() && (#[trigger] r@[k]).nonce == final(self)@.last_nonce
                &&& forall|i: int, nonce: u128|
                    #![trigger carries(logs@[i], nonce)]
                    0 <= i < logs@.len() && carries(logs@[i], nonce) && nonce
                        > old(self)@.last_nonce ==> exists|k: int|
                        0 <= k < r@.len() && (#[trigger] r@[k]).nonce == nonce
                &&& forall|k: int|
                    #![trigger r@[k]]
                    0 <= k < r@.len() ==> old(self)@.last_nonce < r@[k].nonce
                        && r@[k].nonce <= final(self)@.last_nonce && exists|i: int|
                        0 <= i < logs@.len() && carries(#[trigger] logs@[i], r@[k].nonce)
                            && r@[k].payload@ == encoded_message(r@[k].nonce, logs@[i].data@)
                &&& forall|a: int, b: int|
                    #![trigger r@[a], r@[b]]
                    0 <= a < b < r@.len() ==> r@[a].nonce != r@[b].nonce
            },
    {
        let mut results: Vec<OracleData> = Vec::new();
        match self.next_end(finalized_block) {
            None => {
                assert(oracle_views(results@) =~= Seq::empty());
                results
            },
            Some(to_block) => {
                let last_nonce: u128 = self.last_returned_nonce;
                let mut max_nonce: u128 = last_nonce;
                let mut i: usize = 0;
                assert(logs@.take(0) =~= Seq::empty());
                assert(oracle_views(results@) =~= Seq::empty());
                while i < logs.len()
                    invariant
                        i <= logs@.len(),
                        oracle_views(results@) == fresh_messages(logs@.take(i as int), last_nonce),
                        max_nonce == greatest_nonce(oracle_views(results@), last_nonce),
                    decreases logs@.len() - i,
                {
                    let log = &logs[i];
                    let ghost before = results@;
                    proof {
                        assert(logs@.take(i + 1).drop_last() =~= logs@.take(i as int));
                        assert(logs@.take(i + 1).last() == logs@[i as int]);
                    }
                    if let Some(nonce) = log.nonce() {
                        if nonce > last_nonce && !contains_nonce(&results, nonce) {
                            let payload = encode_message(nonce, log.data.as_slice());
                            results.push(OracleData { nonce, payload });
                            proof {
                                let more = oracle_views(results@);
                                assert(more =~= oracle_views(before).push(results@.last()@));
                                assert(more.drop_last() =~= oracle_views(before));
                            }
                            if nonce > max_nonce {
                                max_nonce = nonce;
                            }
                        }
                    }
                    i = i + 1;
                }
                assert(logs@.take(i as int) =~= logs@);
                self.cursor = to_block;
                self.begun = true;
                self.last_returned_nonce = max_nonce;
                proof {
                    let source = old(self)@;
                    let views = oracle_views(results@);
                    law_poll_moves_the_cursor(source, finalized_block, logs@);
                    law_fresh_entries_are_returned(logs@, last_nonce);
                    let at = law_messages_are_the_first_entries(logs@, last_nonce);
                    assert forall|k: int| 0 <= k < results@.len() implies #[trigger] views[k]
                        == results@[k]@ by {}
                    if self@.last_nonce != source.last_nonce {
                        let k = choose|k: int|
                            0 <= k < views.len() && (#[trigger] views[k]).nonce
                                == self@.last_nonce;
                        assert(results@[k].nonce == self@.last_nonce);
                    }
                    assert forall|i: int, nonce: u128|
                        #![trigger carries(logs@[i], nonce)]
                        0 <= i < logs@.len() && carries(logs@[i], nonce) && nonce
                            > source.last_nonce implies exists|k: int|
                        0 <= k < results@.len() && (#[trigger] results@[k]).nonce == nonce by {
                        let k = choose|k: int|
                            0 <= k < at.len() && (#[trigger] fresh_messages(
                                logs@,
                                last_nonce,
                            )[k]).nonce == nonce;
                        assert(results@[k]@ == views[k]);
                    }
                    assert forall|k: int|
                        #![trigger results@[k]]
                        0 <= k < results@.len() implies source.last_nonce < results@[k].nonce
                        <= self@.last_nonce && exists|i: int|
                        0 <= i < logs@.len() && carries(#[trigger] logs@[i], results@[k].nonce)
                            && results@[k].payload@ == encoded_message(
                            results@[k].nonce,
                            logs@[i].data@,
                        ) by {
                        assert(views[k] == results@[k]@);
                        assert(carries(logs@[at[k]], results@[k].nonce));
                    }
                    assert forall|a: int, b: int|
                        #![trigger results@[a], results@[b]]
                        0 <= a < b < results@.len() implies results@[a].nonce
                        != results@[b].nonce by {
                        assert(views[a] == results@[a]@);
                        assert(views[b] == results@[b]@);
                    }
                }
                results
            },
        }
    }
}

/// The chain ID that a source ID stands for, where it is not too large.
fn chain_id_of(source_id: &[u8; 32]) -> (r: Option<u64>)
    ensures
        match r {
            Some(chain_id) => chain_id == be_value(source_id@),
            None => be_value(source_id@) > u64::MAX,
        },
{
    let high: u128 = number_at(source_id.as_slice(), 0, 16);
    let low: u128 = number_at(source_id.as_slice(), 16, 32);
    proof {
        lemma_pow256();
        lemma_be_value_join(source_id@.subrange(0, 16), source_id@.subrange(16, 32));
        assert(source_id@.subrange(0, 16) + source_id@.subrange(16, 32) =~= source_id@);
        assert(be_value(source_id@) == high * 0x1_0000_0000_0000_0000_0000_0000_0000_0000 + low);
    }
    if high == 0 && low <= 0xffff_ffff_ffff_ffff {
        Some(low as u64)
    } else {
        None
    }
}

} // verus!
