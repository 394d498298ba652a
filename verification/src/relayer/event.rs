//! The `MessageSent(uint128 indexed nonce, bytes payload)` event of the portal contract, and what
//! is made of it.
use crate::bytes::{
    be_value, lemma_be_value, lemma_pow256, lemma_to_be, lemma_to_be_suffix, number_at, to_be,
};
use crate::crypto::keccak::{keccak256, keccak256_digest};
use vstd::prelude::*;

verus! {

/// `MessageSent(uint128,bytes)`.
pub const MESSAGE_SENT: [u8; 26] = [
    0x4d, 0x65, 0x73, 0x73, 0x61, 0x67, 0x65, 0x53, 0x65, 0x6e, 0x74, 0x28, 0x75, 0x69, 0x6e, 0x74,
    0x31, 0x32, 0x38, 0x2c, 0x62, 0x79, 0x74, 0x65, 0x73, 0x29,
];

/// The hash by which logs of the event are found.
pub fn signature_hash() -> (r: [u8; 32])
    ensures
        r@ == keccak256_digest(MESSAGE_SENT@),
{
    keccak256(MESSAGE_SENT.as_slice())
}

/// A log entry.
#[derive(Debug)]
pub struct Log {
    /// The topics; the first one is the hash of the event.
    pub topics: Vec<[u8; 32]>,
    /// The data.
    pub data: Vec<u8>,
    /// The block that the entry is in, where it is in one.
    pub block_number: Option<u64>,
}

/// Which logs are asked for.
#[derive(Debug, Clone, Copy)]
pub struct LogFilter {
    /// The contract that emitted them.
    pub address: [u8; 20],
    /// The first topic.
    pub event_signature: [u8; 32],
    /// The second topic, where it matters.
    pub topic1: Option<[u8; 32]>,
    /// The first block.
    pub from_block: u64,
    /// The last block.
    pub to_block: u64,
}

/// A message and its nonce.
#[derive(Debug)]
pub struct OracleData {
    pub nonce: u128,
    pub payload: Vec<u8>,
}

/// What a message holds.
pub struct OracleModel {
    pub nonce: u128,
    pub payload: Seq<u8>,
}

impl View for OracleData {
    type V = OracleModel;

    open spec fn view(&self) -> OracleModel {
        OracleModel { nonce: self.nonce, payload: self.payload@ }
    }
}

/// What the messages hold.
pub open spec fn oracle_views(data: Seq<OracleData>) -> Seq<OracleModel> {
    Seq::new(data.len(), |i: int| data[i]@)
}

/// The nonce that a topic stands for: the number in its last 16 bytes.
pub open spec fn topic_nonce(topic: Seq<u8>) -> u128 {
    be_value(topic.subrange(16, 32)) as u128
}

/// The nonce of a log entry, where it has one.
pub open spec fn log_nonce(log: Log) -> Option<u128> {
    if log.topics@.len() > 1 {
        Some(topic_nonce(log.topics@[1]@))
    } else {
        None
    }
}

impl Log {
    /// The nonce of the entry, which is in its second topic.
    pub fn nonce(&self) -> (r: Option<u128>)
        ensures
            r == log_nonce(*self),
            self.topics@.len() > 1 ==> r == Some(
                be_value(self.topics@[1]@.subrange(16, 32)) as u128,
            ),
            self.topics@.len() <= 1 ==> r is None,
    {
        if self.topics.len() > 1 {
            Some(number_at(self.topics[1].as_slice(), 16, 32))
        } else {
            None
        }
    }
}

/// Every entry with a second topic has a nonce, whatever its data, its block and its other topics
/// are: the number in the last 16 bytes of that topic. An entry without one has none.
pub proof fn law_nonce_is_in_the_second_topic(log: Log)
    ensures
        log.topics@.len() > 1 ==> {
            &&& log_nonce(log) is Some
            &&& log_nonce(log)->Some_0 == be_value(log.topics@[1]@.subrange(16, 32))
        },
        log.topics@.len() <= 1 ==> log_nonce(log) is None,
        forall|n: u128|
            log.topics@.len() > 1 && log.topics@[1]@ == #[trigger] to_be(n as nat, 32)
                ==> log_nonce(log) == Some(n),
{
    if log.topics@.len() > 1 {
        let topic = log.topics@[1]@;
        lemma_be_value(topic.subrange(16, 32));
        lemma_pow256();
        assert forall|n: u128| topic == #[trigger] to_be(n as nat, 32) implies log_nonce(log)
            == Some(n) by {
            law_topic_stands_for_its_nonce(n);
        }
    }
}

/// The message can be read back from its payload: where it begins, its nonce, where its data is,
/// how long the data is, and the data itself; then zeros up to a whole word, and nothing else.
pub proof fn law_payload_holds_the_message(nonce: u128, data: Seq<u8>)
    ensures
        ({
            let payload = encoded_message(nonce, data);
            let len = data.len() as int;
            &&& payload.subrange(0, 32) == to_be(32, 32)
            &&& payload.subrange(32, 64) == to_be(nonce as nat, 32)
            &&& payload.subrange(64, 96) == to_be(64, 32)
            &&& payload.subrange(96, 128) == to_be(data.len(), 32)
            &&& payload.subrange(128, 128 + len) == data
            &&& payload.len() % 32 == 0
            &&& 128 + len <= payload.len() < 160 + len
            &&& forall|i: int| 128 + len <= i < payload.len() ==> #[trigger] payload[i] == 0
        }),
{
    lemma_to_be(32, 32);
    lemma_to_be(nonce as nat, 32);
    lemma_to_be(64, 32);
    lemma_to_be(data.len(), 32);
    let payload = encoded_message(nonce, data);
    let len = data.len() as int;
    assert(payload.subrange(0, 32) =~= to_be(32, 32));
    assert(payload.subrange(32, 64) =~= to_be(nonce as nat, 32));
    assert(payload.subrange(64, 96) =~= to_be(64, 32));
    assert(payload.subrange(96, 128) =~= to_be(data.len(), 32));
    assert(payload.subrange(128, 128 + len) =~= data);
}

/// The topic of a nonce stands for that nonce.
pub proof fn law_topic_stands_for_its_nonce(nonce: u128)
    ensures
        topic_nonce(to_be(nonce as nat, 32)) == nonce,
{
    lemma_to_be(nonce as nat, 32);
    lemma_to_be_suffix(nonce as nat, 16, 16);
    lemma_to_be(nonce as nat, 16);
    lemma_pow256();
    let topic = to_be(nonce as nat, 32);
    assert(topic.subrange(16, 32) =~= topic.skip(16));
}

/// Bytes filled up with zeros to a multiple of 32.
pub open spec fn padded(bytes: Seq<u8>) -> Seq<u8> {
    bytes + Seq::new(((32 - bytes.len() % 32) % 32) as nat, |i: int| 0u8)
}

/// A nonce and a payload in the ABI encoding of the one value `(uint128, bytes)`: where the value
/// is, the nonce, where in the value the payload is, its length, and the payload itself.
pub open spec fn encoded_message(nonce: u128, payload: Seq<u8>) -> Seq<u8> {
    to_be(32, 32) + to_be(nonce as nat, 32) + to_be(64, 32) + to_be(payload.len(), 32) + padded(
        payload,
    )
}

/// Calls `alloy_sol_types::SolValue::abi_encode` on the pair: its ABI encoding as one value.
#[verifier::external_body]
pub(crate) fn encode_message(nonce: u128, payload: &[u8]) -> (r: Vec<u8>)
    ensures
        r@ == encoded_message(nonce, payload@),
{
    alloy_sol_types::SolValue::abi_encode(&(nonce, payload))
}

/// Whether one of the messages has the nonce.
pub open spec fn has_nonce(messages: Seq<OracleModel>, nonce: u128) -> bool {
    exists|k: int| 0 <= k < messages.len() && (#[trigger] messages[k]).nonce == nonce
}

/// The messages in the logs whose nonce is greater than `last`, in the order of the logs; of
/// entries with the same nonce, only the first one counts.
pub open spec fn fresh_messages(logs: Seq<Log>, last: u128) -> Seq<OracleModel>
    decreases logs.len(),
{
    if logs.len() == 0 {
        Seq::empty()
    } else {
        let rest = fresh_messages(logs.drop_last(), last);
        match log_nonce(logs.last()) {
            Some(nonce) => if nonce > last && !has_nonce(rest, nonce) {
                rest.push(
                    OracleModel { nonce, payload: encoded_message(nonce, logs.last().data@) },
                )
            } else {
                rest
            },
            None => rest,
        }
    }
}

/// The greatest nonce of the messages; `last` where there are none.
pub open spec fn greatest_nonce(messages: Seq<OracleModel>, last: u128) -> u128
    decreases messages.len(),
{
    if messages.len() == 0 {
        last
    } else {
        let rest = greatest_nonce(messages.drop_last(), last);
        if messages.last().nonce > rest {
            messages.last().nonce
        } else {
            rest
        }
    }
}

/// Whether one of the messages has the nonce.
pub fn contains_nonce(messages: &Vec<OracleData>, nonce: u128) -> (r: bool)
    ensures
        r == has_nonce(oracle_views(messages@), nonce),
{
    let ghost views = oracle_views(messages@);
    let mut i: usize = 0;
    while i < messages.len()
        invariant
            i <= messages@.len(),
            views == oracle_views(messages@),
            forall|k: int| 0 <= k < i ==> (#[trigger] views[k]).nonce != nonce,
        decreases messages@.len() - i,
    {
        if messages[i].nonce == nonce {
            assert(views[i as int].nonce == nonce);
            return true;
        }
        i = i + 1;
    }
    false
}

} // verus!
