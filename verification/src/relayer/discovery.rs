//! The search for the block of an event, backwards and in chunks.
use crate::bytes::{to_be, word_of};
use crate::crypto::keccak::keccak256_digest;
use crate::relayer::event::{signature_hash, Log, LogFilter, MESSAGE_SENT};
use vstd::prelude::*;

verus! {

/// The number of blocks in a chunk; small enough for the limits of RPC servers.
pub const DISCOVERY_CHUNK_SIZE: u64 = 500;

/// Why no start block is discovered.
#[derive(Debug, Clone, Copy, PartialEq, Eq, Structural)]
pub enum DiscoveryError {
    /// The finalized block is not known.
    FinalizedBlockUnknown,
    /// No block behind the configured one is finalized.
    NothingFinalized { finalized: u64, config_start_block: u64 },
    /// The event is in none of the blocks.
    NotFound { target_nonce: u128, config_start_block: u64, finalized: u64 },
}

/// The search for the block in which the event with `target_nonce` occurred, from the finalized
/// block back to the configured one.
#[derive(Debug, Clone, Copy)]
pub struct StartBlockSearch {
    pub portal_address: [u8; 20],
    pub target_nonce: u128,
    pub config_start_block: u64,
    pub finalized: u64,
    /// The last block of the chunk that is searched next.
    pub to_block: u64,
}

/// What comes next in a search.
#[derive(Debug)]
pub enum SearchStep {
    /// The search goes on.
    Continue(StartBlockSearch),
    /// The event is in this block.
    Found(u64),
    /// The search is over.
    Failed(DiscoveryError),
}

/// The answer to a request for logs.
#[derive(Debug)]
pub enum LogsReply {
    Logs(Vec<Log>),
    Failed,
}

/// The block that a reply gives: that of the first log entry.
pub open spec fn replied_block(reply: LogsReply) -> Option<u64> {
    match reply {
        LogsReply::Logs(logs) => if logs@.len() > 0 {
            logs@[0].block_number
        } else {
            None
        },
        LogsReply::Failed => None,
    }
}

/// The first block of the chunk whose last block is `to`.
pub open spec fn chunk_start(to: int, start: int) -> int {
    if to - (DISCOVERY_CHUNK_SIZE - 1) > start {
        to - (DISCOVERY_CHUNK_SIZE - 1)
    } else {
        start
    }
}

impl StartBlockSearch {
    /// Whether there is a chunk left to search.
    pub open spec fn is_open(&self) -> bool {
        self.config_start_block <= self.to_block <= self.finalized
    }

    /// The error of a search that has come to its end.
    pub open spec fn exhausted(&self) -> DiscoveryError {
        DiscoveryError::NotFound {
            target_nonce: self.target_nonce,
            config_start_block: self.config_start_block,
            finalized: self.finalized,
        }
    }

    /// Begins a search when the finalized block is known.
    pub fn begin(
        portal_address: [u8; 20],
        target_nonce: u128,
        config_start_block: u64,
        finalized: Option<u64>,
    ) -> (r: Result<Self, DiscoveryError>)
        ensures
            match finalized {
                None => r == Err::<Self, DiscoveryError>(DiscoveryError::FinalizedBlockUnknown),
                Some(finalized) => if finalized <= config_start_block {
                    r == Err::<Self, DiscoveryError>(
                        DiscoveryError::NothingFinalized { finalized, config_start_block },
                    )
                } else {
                    r == Ok::<Self, DiscoveryError>(
                        StartBlockSearch {
                            portal_address,
                            target_nonce,
                            config_start_block,
                            finalized,
                            to_block: finalized,
                        },
                    )
                },
            },
    {
        match finalized {
            None => Err(DiscoveryError::FinalizedBlockUnknown),
            Some(finalized) => {
                if finalized <= config_start_block {
                    return Err(DiscoveryError::NothingFinalized { finalized, config_start_block });
                }
                Ok(
                    StartBlockSearch {
                        portal_address,
                        target_nonce,
                        config_start_block,
                        finalized,
                        to_block: finalized,
                    },
                )
            },
        }
    }

    /// The first block of the chunk that is searched next.
    fn from_block(&self) -> (r: u64)
        ensures
            r == chunk_start(self.to_block as int, self.config_start_block as int),
    {
        let from: u64 = self.to_block.saturating_sub(DISCOVERY_CHUNK_SIZE - 1);
        if from > self.config_start_block {
            from
        } else {
            self.config_start_block
        }
    }

    /// The logs to ask for: those of the event with the target nonce in the next chunk.
    pub fn filter(&self) -> (r: LogFilter)
        ensures
            r.address == self.portal_address,
            r.event_signature@ == keccak256_digest(MESSAGE_SENT@),
            r.topic1 matches Some(topic) && topic@ == to_be(self.target_nonce as nat, 32),
            r.from_block == chunk_start(self.to_block as int, self.config_start_block as int),
            r.from_block == self.config_start_block || r.from_block == self.to_block - 499,
            r.from_block >= self.config_start_block,
            r.from_block >= self.to_block - 499,
            r.to_block == self.to_block,
            r.to_block - r.from_block + 1 <= DISCOVERY_CHUNK_SIZE,
    {
        LogFilter {
            address: self.portal_address,
            event_signature: signature_hash(),
            topic1: Some(word_of(self.target_nonce)),
            from_block: self.from_block(),
            to_block: self.to_block,
        }
    }

    /// Goes on with the reply to the request for the next chunk: the search ends at the block that
    /// the reply gives; where it gives none, the chunk that ends before this one begins is
    /// searched, if there is one.
    pub fn step(self, reply: &LogsReply) -> (r: SearchStep)
        ensures
            r == self.after(*reply),
            r matches SearchStep::Found(block) ==> {
                &&& *reply matches LogsReply::Logs(logs)
                &&& logs@.len() > 0
                &&& logs@[0].block_number == Some(block)
            },
            *reply matches LogsReply::Logs(logs) ==> logs@.len() > 0 ==> {
                logs@[0].block_number matches Some(block) ==> r == SearchStep::Found(block)
            },
            r matches SearchStep::Continue(next) ==> {
                &&& next.portal_address == self.portal_address
                &&& next.target_nonce == self.target_nonce
                &&& next.config_start_block == self.config_start_block
                &&& next.finalized == self.finalized
                &&& next.to_block == self.to_block - 500
                &&& next.to_block >= self.config_start_block
            },
            r matches SearchStep::Failed(error) ==> {
                &&& self.to_block < self.config_start_block + 500
                &&& error == DiscoveryError::NotFound {
                    target_nonce: self.target_nonce,
                    config_start_block: self.config_start_block,
                    finalized: self.finalized,
                }
            },
    {
        if let LogsReply::Logs(logs) = reply {
            if logs.len() > 0 {
                if let Some(block_number) = logs[0].block_number {
                    return SearchStep::Found(block_number);
                }
            }
        }
        let from_block: u64 = self.from_block();
        if from_block > self.config_start_block {
            SearchStep::Continue(StartBlockSearch { to_block: from_block - 1, ..self })
        } else {
            SearchStep::Failed(
                DiscoveryError::NotFound {
                    target_nonce: self.target_nonce,
                    config_start_block: self.config_start_block,
                    finalized: self.finalized,
                },
            )
        }
    }

    /// What comes after the reply.
    pub open spec fn after(self, reply: LogsReply) -> SearchStep {
        let from = chunk_start(self.to_block as int, self.config_start_block as int);
        match replied_block(reply) {
            Some(block) => SearchStep::Found(block),
            None => if from > self.config_start_block {
                SearchStep::Continue(StartBlockSearch { to_block: (from - 1) as u64, ..self })
            } else {
                SearchStep::Failed(self.exhausted())
            },
        }
    }
}

} // verus!
