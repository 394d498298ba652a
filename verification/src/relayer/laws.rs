//! What holds of polls and of the search.
use crate::bytes::be_value;
use crate::relayer::discovery::{
    chunk_start, replied_block, DiscoveryError, LogsReply, SearchStep, StartBlockSearch,
    DISCOVERY_CHUNK_SIZE,
};
use crate::relayer::event::{
    encoded_message, fresh_messages, greatest_nonce, has_nonce, law_nonce_is_in_the_second_topic,
    log_nonce, Log, OracleModel,
};
use crate::relayer::source::{SourceModel, MAX_BLOCKS_PER_POLL};
use vstd::prelude::*;

verus! {

/// One poll: the block that was finalized, and the logs that came back.
pub struct Poll {
    pub finalized: u64,
    pub logs: Seq<Log>,
}

/// What a source knows after some polls.
pub open spec fn after_polls(source: SourceModel, polls: Seq<Poll>) -> SourceModel
    decreases polls.len(),
{
    if polls.len() == 0 {
        source
    } else {
        let poll = polls.last();
        after_polls(source, polls.drop_last()).after_poll(poll.finalized, poll.logs)
    }
}

/// The messages that the poll at position `i` returns.
pub open spec fn returned(source: SourceModel, polls: Seq<Poll>, i: int) -> Seq<OracleModel> {
    after_polls(source, polls.take(i)).polled(polls[i].finalized, polls[i].logs)
}

/// For each entry whose nonce is greater than the last one a message with that nonce is returned;
/// each message comes from an entry; and no two messages have the same nonce.
pub proof fn law_fresh_entries_are_returned(logs: Seq<Log>, last: u128)
    ensures
        forall|i: int|
            #![trigger logs[i]]
            0 <= i < logs.len() && log_nonce(logs[i]) is Some && log_nonce(logs[i])->Some_0 > last
                ==> has_nonce(fresh_messages(logs, last), log_nonce(logs[i])->Some_0),
        forall|k: int|
            #![trigger fresh_messages(logs, last)[k]]
            0 <= k < fresh_messages(logs, last).len() ==> {
                let message = fresh_messages(logs, last)[k];
                message.nonce > last && exists|i: int|
                    0 <= i < logs.len() && log_nonce(#[trigger] logs[i]) == Some(message.nonce)
                        && message.payload == encoded_message(message.nonce, logs[i].data@)
            },
        forall|a: int, b: int|
            #![trigger fresh_messages(logs, last)[a], fresh_messages(logs, last)[b]]
            0 <= a < b < fresh_messages(logs, last).len() ==> fresh_messages(logs, last)[a].nonce
                != fresh_messages(logs, last)[b].nonce,
    decreases logs.len(),
{
    if logs.len() > 0 {
        let rest = logs.drop_last();
        let before = fresh_messages(rest, last);
        let all = fresh_messages(logs, last);
        law_fresh_entries_are_returned(rest, last);
        assert forall|k: int| 0 <= k < before.len() implies #[trigger] all[k] == before[k] by {}
        assert(logs[logs.len() - 1] == logs.last());
        assert forall|i: int|
            #![trigger logs[i]]
            0 <= i < logs.len() && log_nonce(logs[i]) is Some && log_nonce(logs[i])->Some_0
                > last implies has_nonce(all, log_nonce(logs[i])->Some_0) by {
            let nonce = log_nonce(logs[i])->Some_0;
            if i < rest.len() {
                assert(rest[i] == logs[i]);
            }
            if has_nonce(before, nonce) {
                let k = choose|k: int|
                    0 <= k < before.len() && (#[trigger] before[k]).nonce == nonce;
                assert(all[k].nonce == nonce);
            } else {
                assert(all[all.len() - 1].nonce == nonce);
            }
        }
        assert forall|k: int| #![trigger all[k]] 0 <= k < all.len() implies {
            let message = all[k];
            message.nonce > last && exists|i: int|
                0 <= i < logs.len() && log_nonce(#[trigger] logs[i]) == Some(message.nonce)
                    && message.payload == encoded_message(message.nonce, logs[i].data@)
        } by {
            if k < before.len() {
                let message = before[k];
                let i = choose|i: int|
                    0 <= i < rest.len() && log_nonce(#[trigger] rest[i]) == Some(message.nonce)
                        && message.payload == encoded_message(message.nonce, rest[i].data@);
                assert(logs[i] == rest[i]);
            }
        }
        assert forall|a: int, b: int|
            #![trigger all[a], all[b]]
            0 <= a < b < all.len() implies all[a].nonce != all[b].nonce by {
            if b < before.len() {
                assert(before[a].nonce != before[b].nonce);
            } else {
                assert(before[a] == all[a]);
            }
        }
    }
}

/// Whether the entry has a second topic, and the last 16 bytes of that are the number.
pub open spec fn carries(log: Log, nonce: u128) -> bool {
    log.topics@.len() > 1 && be_value(log.topics@[1]@.subrange(16, 32)) == nonce
}

/// Each message comes from an entry, in the order of the entries: the first one whose second topic
/// ends with its nonce, whose data is in its payload. Each entry whose second topic ends with a
/// number greater than the last nonce has a message with that nonce, whatever its data is.
pub proof fn law_messages_are_the_first_entries(logs: Seq<Log>, last: u128) -> (at: Seq<int>)
    ensures
        at.len() == fresh_messages(logs, last).len(),
        forall|k: int| #![trigger at[k]] 0 <= k < at.len() ==> 0 <= at[k] < logs.len(),
        forall|k: int|
            #![trigger at[k]]
            0 <= k < at.len() ==> {
                let message = fresh_messages(logs, last)[k];
                &&& message.nonce > last
                &&& carries(logs[at[k]], message.nonce)
                &&& message.payload == encoded_message(message.nonce, logs[at[k]].data@)
                &&& forall|j: int|
                    0 <= j < at[k] ==> !carries(#[trigger] logs[j], message.nonce)
            },
        forall|a: int, b: int| #![trigger at[a], at[b]] 0 <= a < b < at.len() ==> at[a] < at[b],
        forall|i: int, nonce: u128|
            #![trigger carries(logs[i], nonce)]
            0 <= i < logs.len() && carries(logs[i], nonce) && nonce > last ==> exists|k: int|
                0 <= k < at.len() && (#[trigger] fresh_messages(logs, last)[k]).nonce == nonce,
    decreases logs.len(),
{
    if logs.len() == 0 {
        Seq::empty()
    } else {
        let rest = logs.drop_last();
        let before = fresh_messages(rest, last);
        let all = fresh_messages(logs, last);
        let earlier = law_messages_are_the_first_entries(rest, last);
        let end = logs.len() - 1;
        law_nonce_is_in_the_second_topic(logs[end]);
        assert(logs[end] == logs.last());
        assert forall|k: int| 0 <= k < before.len() implies #[trigger] all[k] == before[k] by {}
        assert forall|i: int| 0 <= i < end implies #[trigger] rest[i] == logs[i] by {}
        let at = if all.len() > before.len() {
            earlier.push(end)
        } else {
            earlier
        };
        assert forall|k: int| #![trigger at[k]] 0 <= k < at.len() implies 0 <= at[k]
            < logs.len() && {
            let message = all[k];
            &&& message.nonce > last
            &&& carries(logs[at[k]], message.nonce)
            &&& message.payload == encoded_message(message.nonce, logs[at[k]].data@)
            &&& forall|j: int| 0 <= j < at[k] ==> !carries(#[trigger] logs[j], message.nonce)
        } by {
            if k < before.len() {
                assert(at[k] == earlier[k]);
                let message = before[k];
                assert forall|j: int| 0 <= j < at[k] implies !carries(
                    #[trigger] logs[j],
                    message.nonce,
                ) by {
                    assert(!carries(rest[j], message.nonce));
                }
            } else {
                let message = all[k];
                assert forall|j: int| 0 <= j < end implies !carries(
                    #[trigger] logs[j],
                    message.nonce,
                ) by {
                    if carries(rest[j], message.nonce) {
                        let m = choose|m: int|
                            0 <= m < earlier.len() && (#[trigger] before[m]).nonce
                                == message.nonce;
                        assert(has_nonce(before, message.nonce));
                    }
                }
            }
        }
        assert forall|i: int, nonce: u128|
            #![trigger carries(logs[i], nonce)]
            0 <= i < logs.len() && carries(logs[i], nonce) && nonce > last implies exists|k: int|
            0 <= k < at.len() && (#[trigger] all[k]).nonce == nonce by {
            if i < end {
                assert(carries(rest[i], nonce));
                let m = choose|m: int|
                    0 <= m < earlier.len() && (#[trigger] before[m]).nonce == nonce;
                assert(all[m].nonce == nonce);
            } else if has_nonce(before, nonce) {
                let m = choose|m: int|
                    0 <= m < before.len() && (#[trigger] before[m]).nonce == nonce;
                assert(all[m].nonce == nonce);
            } else {
                assert(all[before.len() as int].nonce == nonce);
            }
        }
        at
    }
}

/// What a poll does to a source, in terms of the blocks: where a block behind the cursor is
/// finalized, the cursor moves to the finalized block, or as far as 100 blocks from the first one
/// polled go; that is the one behind the cursor, and in the first poll the start block itself. The
/// last nonce is the greatest that was returned. Otherwise nothing changes.
pub proof fn law_poll_moves_the_cursor(source: SourceModel, finalized: u64, logs: Seq<Log>)
    requires
        source.cursor + 100 <= u64::MAX,
    ensures
        ({
            let after = source.after_poll(finalized, logs);
            let messages = source.polled(finalized, logs);
            let first = if source.begun {
                source.cursor + 1
            } else {
                source.cursor as int
            };
            &&& after.chain_id == source.chain_id
            &&& after.portal_address == source.portal_address
            &&& finalized <= source.cursor ==> messages.len() == 0 && after == source
            &&& finalized > source.cursor ==> {
                &&& messages == fresh_messages(logs, source.last_nonce)
                &&& after.begun
                &&& after.cursor <= finalized
                &&& after.cursor == finalized || after.cursor == first + 99
                &&& after.cursor <= first + 99
                &&& forall|k: int|
                    0 <= k < messages.len() ==> (#[trigger] messages[k]).nonce
                        <= after.last_nonce
                &&& after.last_nonce == source.last_nonce || exists|k: int|
                    0 <= k < messages.len() && (#[trigger] messages[k]).nonce == after.last_nonce
                &&& after.last_nonce >= source.last_nonce
            }
        }),
{
    lemma_greatest_nonce(source.polled(finalized, logs), source.last_nonce);
}

/// No message has a nonce above the greatest one, which is that of a message or the given one.
proof fn lemma_greatest_nonce(messages: Seq<OracleModel>, last: u128)
    ensures
        greatest_nonce(messages, last) >= last,
        greatest_nonce(messages, last) == last || has_nonce(
            messages,
            greatest_nonce(messages, last),
        ),
        forall|k: int|
            #![trigger messages[k]]
            0 <= k < messages.len() ==> messages[k].nonce <= greatest_nonce(messages, last),
    decreases messages.len(),
{
    if messages.len() > 0 {
        let rest = messages.drop_last();
        lemma_greatest_nonce(rest, last);
        let g = greatest_nonce(rest, last);
        assert forall|k: int| #![trigger messages[k]] 0 <= k < messages.len() implies
            messages[k].nonce <= greatest_nonce(messages, last) by {
            if k < rest.len() {
                assert(rest[k] == messages[k]);
            }
        }
        assert(messages[messages.len() - 1] == messages.last());
        if has_nonce(rest, g) {
            let k = choose|k: int| 0 <= k < rest.len() && (#[trigger] rest[k]).nonce == g;
            assert(messages[k].nonce == g);
        }
    }
}

/// A poll takes no more blocks than the maximum and none beyond the finalized one, and moves the
/// cursor to the last of them, or leaves the source as it is; and the last nonce never decreases.
pub proof fn law_poll_moves_on(source: SourceModel, poll: Poll)
    ensures
        ({
            let after = source.after_poll(poll.finalized, poll.logs);
            &&& source.can_poll(poll.finalized) ==> {
                &&& source.cursor < after.cursor <= poll.finalized
                &&& after.cursor - source.next_block() + 1 <= MAX_BLOCKS_PER_POLL
                &&& after.next_block() == after.cursor + 1
            }
            &&& !source.can_poll(poll.finalized) ==> after == source
            &&& after.last_nonce >= source.last_nonce
            &&& after.chain_id == source.chain_id
            &&& after.portal_address == source.portal_address
        }),
{
    lemma_greatest_nonce(source.polled(poll.finalized, poll.logs), source.last_nonce);
}

/// Whether the poll at position `i` asks for the logs of the block: it asks for those from its
/// first block up to the cursor after it.
pub open spec fn polls_block(source: SourceModel, polls: Seq<Poll>, i: int, block: int) -> bool {
    let before = after_polls(source, polls.take(i));
    &&& before.can_poll(polls[i].finalized)
    &&& before.next_block() <= block <= before.poll_end(polls[i].finalized)
}

/// What the poll at position `i` does to the source.
proof fn lemma_poll_at(source: SourceModel, polls: Seq<Poll>, i: int)
    requires
        0 <= i < polls.len(),
    ensures
        after_polls(source, polls.take(i + 1)) == after_polls(source, polls.take(i)).after_poll(
            polls[i].finalized,
            polls[i].logs,
        ),
{
    assert(polls.take(i + 1).drop_last() =~= polls.take(i));
    assert(polls.take(i + 1).last() == polls[i]);
}

/// Neither the first block of the next poll nor the last nonce ever moves back.
proof fn lemma_moves_on(source: SourceModel, polls: Seq<Poll>, i: int, j: int)
    requires
        0 <= i <= j <= polls.len(),
    ensures
        after_polls(source, polls.take(i)).next_block() <= after_polls(
            source,
            polls.take(j),
        ).next_block(),
        after_polls(source, polls.take(i)).last_nonce <= after_polls(
            source,
            polls.take(j),
        ).last_nonce,
    decreases j - i,
{
    if i < j {
        lemma_moves_on(source, polls, i, j - 1);
        lemma_poll_at(source, polls, j - 1);
        law_poll_moves_on(after_polls(source, polls.take(j - 1)), polls[j - 1]);
    }
}

/// Polls leave no block out: each block from the first one to poll, up to the cursor after them,
/// is polled.
pub proof fn law_every_block_is_polled(source: SourceModel, polls: Seq<Poll>, block: int)
    requires
        source.next_block() <= block < after_polls(source, polls).next_block(),
    ensures
        exists|i: int| 0 <= i < polls.len() && #[trigger] polls_block(source, polls, i, block),
    decreases polls.len(),
{
    let rest = polls.drop_last();
    let last = polls.len() - 1;
    assert(polls.take(last) =~= rest);
    if block < after_polls(source, rest).next_block() {
        law_every_block_is_polled(source, rest, block);
        let i = choose|i: int|
            0 <= i < rest.len() && #[trigger] polls_block(source, rest, i, block);
        assert(rest.take(i) =~= polls.take(i));
        assert(polls_block(source, polls, i, block));
    } else {
        assert(polls_block(source, polls, last, block));
    }
}

/// No block is polled twice.
pub proof fn law_no_block_is_polled_twice(
    source: SourceModel,
    polls: Seq<Poll>,
    block: int,
    i: int,
    j: int,
)
    requires
        0 <= i < j < polls.len(),
        polls_block(source, polls, i, block),
    ensures
        !polls_block(source, polls, j, block),
{
    lemma_poll_at(source, polls, i);
    lemma_moves_on(source, polls, i + 1, j);
}

/// The nonces that a poll returns lie above the last one before it, and up to the last one after.
proof fn lemma_returned_range(source: SourceModel, polls: Seq<Poll>, i: int)
    requires
        0 <= i < polls.len(),
    ensures
        forall|k: int|
            #![trigger returned(source, polls, i)[k]]
            0 <= k < returned(source, polls, i).len() ==> after_polls(
                source,
                polls.take(i),
            ).last_nonce < returned(source, polls, i)[k].nonce <= after_polls(
                source,
                polls.take(i + 1),
            ).last_nonce,
{
    let before = after_polls(source, polls.take(i));
    lemma_poll_at(source, polls, i);
    lemma_greatest_nonce(returned(source, polls, i), before.last_nonce);
    law_fresh_entries_are_returned(polls[i].logs, before.last_nonce);
}

/// No nonce is returned twice, by one poll or by two, nor one up to the last nonce that the source
/// was set up with: whatever logs come back, all that a later poll returns lies above all that an
/// earlier one did.
pub proof fn law_no_nonce_is_returned_twice(
    source: SourceModel,
    polls: Seq<Poll>,
    i: int,
    a: int,
    j: int,
    b: int,
)
    requires
        0 <= i <= j < polls.len(),
        0 <= a < returned(source, polls, i).len(),
        0 <= b < returned(source, polls, j).len(),
        i != j || a != b,
    ensures
        returned(source, polls, i)[a].nonce != returned(source, polls, j)[b].nonce,
        i < j ==> returned(source, polls, i)[a].nonce < returned(source, polls, j)[b].nonce,
        source.last_nonce < returned(source, polls, i)[a].nonce,
{
    assert(polls.take(0) =~= Seq::empty());
    lemma_moves_on(source, polls, 0, i);
    lemma_returned_range(source, polls, i);
    lemma_returned_range(source, polls, j);
    if i < j {
        lemma_moves_on(source, polls, i + 1, j);
    } else {
        law_fresh_entries_are_returned(
            polls[i].logs,
            after_polls(source, polls.take(i)).last_nonce,
        );
    }
}

/// The entries of a chain in the blocks from `from` up to `to`.
pub open spec fn block_logs(chain: spec_fn(int) -> Seq<Log>, from: int, to: int) -> Seq<Log>
    decreases to - from + 1,
{
    if to < from {
        Seq::empty()
    } else {
        block_logs(chain, from, to - 1) + chain(to)
    }
}

/// Whether the polls get the entries of the chain that they ask for.
pub open spec fn are_served(
    source: SourceModel,
    polls: Seq<Poll>,
    chain: spec_fn(int) -> Seq<Log>,
) -> bool {
    forall|i: int|
        #![trigger polls[i]]
        0 <= i < polls.len() ==> {
            let before = after_polls(source, polls.take(i));
            before.can_poll(polls[i].finalized) ==> polls[i].logs == block_logs(
                chain,
                before.next_block(),
                before.poll_end(polls[i].finalized),
            )
        }
}

/// Whether the nonces of the chain do not decrease from block to block.
pub open spec fn is_in_order(chain: spec_fn(int) -> Seq<Log>) -> bool {
    forall|b: int, c: int, first: Log, second: Log|
        b < c && #[trigger] chain(b).contains(first) && #[trigger] chain(c).contains(second)
            && log_nonce(first) is Some && log_nonce(second) is Some ==> log_nonce(first)->Some_0
            <= log_nonce(second)->Some_0
}

/// The entries of a block are in the range that the block is in.
proof fn lemma_in_range(
    chain: spec_fn(int) -> Seq<Log>,
    from: int,
    to: int,
    block: int,
    log: Log,
)
    requires
        from <= block <= to,
        chain(block).contains(log),
    ensures
        block_logs(chain, from, to).contains(log),
    decreases to - from + 1,
{
    let before = block_logs(chain, from, to - 1);
    let all = block_logs(chain, from, to);
    if block < to {
        lemma_in_range(chain, from, to - 1, block, log);
        let i = choose|i: int| 0 <= i < before.len() && before[i] == log;
        assert(all[i] == log);
    } else {
        let last = chain(to);
        let k = choose|k: int| 0 <= k < last.len() && last[k] == log;
        assert(all[before.len() + k] == log);
    }
}

/// An entry of a range is in one of its blocks.
proof fn lemma_block_of(chain: spec_fn(int) -> Seq<Log>, from: int, to: int, log: Log) -> (r: int)
    requires
        block_logs(chain, from, to).contains(log),
    ensures
        from <= r <= to,
        chain(r).contains(log),
    decreases to - from + 1,
{
    let before = block_logs(chain, from, to - 1);
    let all = block_logs(chain, from, to);
    let i = choose|i: int| 0 <= i < all.len() && all[i] == log;
    if i < before.len() {
        assert(before[i] == log);
        lemma_block_of(chain, from, to - 1, log)
    } else {
        assert(chain(to)[i - before.len()] == log);
        to
    }
}

/// The last nonce is the one that the source was set up with, or was returned by a poll for an
/// entry in a block that has been polled.
proof fn lemma_last_nonce_was_returned(
    source: SourceModel,
    polls: Seq<Poll>,
    chain: spec_fn(int) -> Seq<Log>,
    i: int,
) -> (r: (int, int, Log))
    requires
        0 <= i <= polls.len(),
        are_served(source, polls, chain),
    ensures
        ({
            let now = after_polls(source, polls.take(i));
            now.last_nonce == source.last_nonce || {
                &&& 0 <= r.0 < i
                &&& has_nonce(returned(source, polls, r.0), now.last_nonce)
                &&& r.1 < now.next_block()
                &&& chain(r.1).contains(r.2)
                &&& log_nonce(r.2) == Some(now.last_nonce)
            }
        }),
    decreases i,
{
    if i == 0 {
        assert(polls.take(0) =~= Seq::empty());
        arbitrary()
    } else {
        let before = after_polls(source, polls.take(i - 1));
        let now = after_polls(source, polls.take(i));
        let poll = polls[i - 1];
        lemma_poll_at(source, polls, i - 1);
        law_poll_moves_on(before, poll);
        let messages = returned(source, polls, i - 1);
        lemma_greatest_nonce(messages, before.last_nonce);
        if now.last_nonce != before.last_nonce {
            let m = choose|m: int|
                0 <= m < messages.len() && (#[trigger] messages[m]).nonce == now.last_nonce;
            law_fresh_entries_are_returned(poll.logs, before.last_nonce);
            let e = choose|e: int|
                0 <= e < poll.logs.len() && log_nonce(#[trigger] poll.logs[e]) == Some(
                    messages[m].nonce,
                ) && messages[m].payload == encoded_message(
                    messages[m].nonce,
                    poll.logs[e].data@,
                );
            assert(poll.logs.contains(poll.logs[e]));
            let b = lemma_block_of(
                chain,
                before.next_block(),
                before.poll_end(poll.finalized),
                poll.logs[e],
            );
            (i - 1, b, poll.logs[e])
        } else {
            lemma_last_nonce_was_returned(source, polls, chain, i - 1)
        }
    }
}

/// Messages are consumed exactly once: where the polls get the entries that they ask for, and the
/// nonces of the chain do not decrease from block to block, each entry from the start block on, up
/// to the cursor after the polls, has its nonce returned, if that is greater than the last one that
/// the source was set up with; and it is returned at one place only.
pub proof fn law_every_message_is_returned_once(
    source: SourceModel,
    polls: Seq<Poll>,
    chain: spec_fn(int) -> Seq<Log>,
    block: int,
    log: Log,
)
    requires
        are_served(source, polls, chain),
        is_in_order(chain),
        source.next_block() <= block < after_polls(source, polls).next_block(),
        chain(block).contains(log),
        log_nonce(log) matches Some(nonce) && nonce > source.last_nonce,
    ensures
        exists|i: int|
            0 <= i < polls.len() && has_nonce(
                #[trigger] returned(source, polls, i),
                log_nonce(log)->Some_0,
            ),
        forall|i: int, a: int, j: int, b: int|
            #![trigger returned(source, polls, i)[a], returned(source, polls, j)[b]]
            0 <= i < polls.len() && 0 <= j < polls.len() && 0 <= a < returned(
                source,
                polls,
                i,
            ).len() && 0 <= b < returned(source, polls, j).len() && returned(
                source,
                polls,
                i,
            )[a].nonce == log_nonce(log)->Some_0 && returned(source, polls, j)[b].nonce
                == log_nonce(log)->Some_0 ==> i == j && a == b,
{
    let nonce = log_nonce(log)->Some_0;
    law_every_block_is_polled(source, polls, block);
    let i = choose|i: int| 0 <= i < polls.len() && #[trigger] polls_block(source, polls, i, block);
    let before = after_polls(source, polls.take(i));
    let poll = polls[i];
    lemma_in_range(chain, before.next_block(), before.poll_end(poll.finalized), block, log);
    let e = choose|e: int| 0 <= e < poll.logs.len() && poll.logs[e] == log;
    assert(log_nonce(poll.logs[e]) == Some(nonce));
    if nonce > before.last_nonce {
        law_fresh_entries_are_returned(poll.logs, before.last_nonce);
        assert(has_nonce(returned(source, polls, i), nonce));
    } else {
        let (j, b, first) = lemma_last_nonce_was_returned(source, polls, chain, i);
        assert(chain(b).contains(first));
        assert(nonce == before.last_nonce);
        assert(has_nonce(returned(source, polls, j), nonce));
    }
    assert forall|i: int, a: int, j: int, b: int|
        #![trigger returned(source, polls, i)[a], returned(source, polls, j)[b]]
        0 <= i < polls.len() && 0 <= j < polls.len() && 0 <= a < returned(source, polls, i).len()
            && 0 <= b < returned(source, polls, j).len() && returned(source, polls, i)[a].nonce
            == nonce && returned(source, polls, j)[b].nonce == nonce implies i == j && a == b by {
        if i != j || a != b {
            if i <= j {
                law_no_nonce_is_returned_twice(source, polls, i, a, j, b);
            } else {
                law_no_nonce_is_returned_twice(source, polls, j, b, i, a);
            }
        }
    }
}

/// The chunks that a search goes through, as their first and last blocks.
pub open spec fn chunks(to: int, start: int) -> Seq<(int, int)>
    decreases to - start + 1,
{
    if to < start {
        Seq::empty()
    } else {
        seq![(chunk_start(to, start), to)] + chunks(chunk_start(to, start) - 1, start)
    }
}

/// The chunks of a search cover all blocks, from the configured one up to the finalized one; none
/// has more blocks than the limit.
pub proof fn law_chunks_cover_all_blocks(to: int, start: int, block: int)
    requires
        start <= block <= to,
    ensures
        exists|i: int|
            0 <= i < chunks(to, start).len() && (#[trigger] chunks(to, start)[i]).0 <= block
                <= chunks(to, start)[i].1,
        forall|i: int|
            0 <= i < chunks(to, start).len() ==> start <= (#[trigger] chunks(to, start)[i]).0
                <= chunks(to, start)[i].1 <= to && chunks(to, start)[i].1 - chunks(to, start)[i].0
                + 1 <= DISCOVERY_CHUNK_SIZE,
    decreases to - start,
{
    let from = chunk_start(to, start);
    let all = chunks(to, start);
    let more = chunks(from - 1, start);
    assert(all[0] == (from, to));
    assert forall|i: int| 0 < i < all.len() implies #[trigger] all[i] == more[i - 1] by {}
    if from > start {
        let inside = if block < from {
            block
        } else {
            start
        };
        law_chunks_cover_all_blocks(from - 1, start, inside);
        if block < from {
            let i = choose|i: int|
                0 <= i < more.len() && (#[trigger] more[i]).0 <= block <= more[i].1;
            assert(all[i + 1] == more[i]);
        }
    } else {
        assert(more.len() == 0);
    }
}

/// Where a search is when it has got some replies.
pub open spec fn run(search: StartBlockSearch, replies: Seq<LogsReply>) -> SearchStep
    decreases replies.len(),
{
    if replies.len() == 0 {
        SearchStep::Continue(search)
    } else {
        match search.after(replies[0]) {
            SearchStep::Continue(next) => run(next, replies.skip(1)),
            step => step,
        }
    }
}

/// A search asks for its chunks one after the other: where the replies so far gave no block, it is
/// at the chunk whose position is the number of replies.
pub proof fn law_search_asks_for_the_chunks(search: StartBlockSearch, replies: Seq<LogsReply>)
    requires
        search.is_open(),
        forall|j: int| 0 <= j < replies.len() ==> replied_block(#[trigger] replies[j]) is None,
        replies.len() < chunks(search.to_block as int, search.config_start_block as int).len(),
    ensures
        ({
            let start = search.config_start_block as int;
            let chunk = chunks(search.to_block as int, start)[replies.len() as int];
            &&& run(search, replies) matches SearchStep::Continue(now)
            &&& now.config_start_block == start
            &&& now.to_block == chunk.1
            &&& chunk_start(now.to_block as int, start) == chunk.0
        }),
    decreases replies.len(),
{
    let start = search.config_start_block as int;
    let from = chunk_start(search.to_block as int, start);
    let more = chunks(from - 1, start);
    assert(chunks(search.to_block as int, start) == seq![(from, search.to_block as int)] + more);
    if replies.len() > 0 {
        assert(replied_block(replies[0]) is None);
        assert(from > start);
        let next = StartBlockSearch { to_block: (from - 1) as u64, ..search };
        let later = replies.skip(1);
        assert forall|j: int| 0 <= j < later.len() implies replied_block(
            #[trigger] later[j],
        ) is None by {
            assert(later[j] == replies[j + 1]);
        }
        law_search_asks_for_the_chunks(next, later);
    }
}

/// A search finds the block of the first reply that gives one.
pub proof fn law_search_finds_the_first_block(
    search: StartBlockSearch,
    replies: Seq<LogsReply>,
    k: int,
)
    requires
        search.is_open(),
        0 <= k < replies.len(),
        k < chunks(search.to_block as int, search.config_start_block as int).len(),
        forall|j: int| 0 <= j < k ==> replied_block(#[trigger] replies[j]) is None,
        replied_block(replies[k]) is Some,
    ensures
        run(search, replies) == SearchStep::Found(replied_block(replies[k])->Some_0),
    decreases k,
{
    let start = search.config_start_block as int;
    let from = chunk_start(search.to_block as int, start);
    if k > 0 {
        let more = chunks(from - 1, start);
        assert(chunks(search.to_block as int, start).len() == more.len() + 1);
        assert(from > start);
        let next = StartBlockSearch { to_block: (from - 1) as u64, ..search };
        let later = replies.skip(1);
        assert(replied_block(replies[0]) is None);
        assert forall|j: int| 0 <= j < k - 1 implies replied_block(#[trigger] later[j]) is None by {
            assert(later[j] == replies[j + 1]);
        }
        assert(later[k - 1] == replies[k]);
        law_search_finds_the_first_block(next, later, k - 1);
    }
}

/// A search whose replies give no block fails when all chunks have been asked for, and goes on
/// until then.
pub proof fn law_search_fails_after_all_chunks(search: StartBlockSearch, replies: Seq<LogsReply>)
    requires
        search.is_open(),
        forall|j: int| 0 <= j < replies.len() ==> replied_block(#[trigger] replies[j]) is None,
    ensures
        ({
            let n = chunks(search.to_block as int, search.config_start_block as int).len();
            if replies.len() < n {
                run(search, replies) is Continue
            } else {
                run(search, replies) == SearchStep::Failed(search.exhausted())
            }
        }),
    decreases replies.len(),
{
    let start = search.config_start_block as int;
    let from = chunk_start(search.to_block as int, start);
    let more = chunks(from - 1, start);
    assert(chunks(search.to_block as int, start).len() == more.len() + 1);
    if replies.len() > 0 {
        assert(replied_block(replies[0]) is None);
        if from > start {
            let next = StartBlockSearch { to_block: (from - 1) as u64, ..search };
            let later = replies.skip(1);
            assert forall|j: int| 0 <= j < later.len() implies replied_block(
                #[trigger] later[j],
            ) is None by {
                assert(later[j] == replies[j + 1]);
            }
            law_search_fails_after_all_chunks(next, later);
        } else {
            assert(more.len() == 0);
        }
    }
}

/// What one reply does to a search, in terms of the reply: the search ends at a block exactly where
/// the reply is a list of entries whose first one is in that block. Otherwise it goes on with the
/// 500 blocks before those it has asked for, if there are any behind the configured one, and fails
/// if there are none.
pub proof fn law_step_goes_by_the_first_entry(search: StartBlockSearch, reply: LogsReply)
    ensures
        search.after(reply) is Found <==> {
            &&& reply matches LogsReply::Logs(logs)
            &&& logs@.len() > 0
            &&& logs@[0].block_number is Some
        },
        search.after(reply) matches SearchStep::Found(block) ==> {
            &&& reply matches LogsReply::Logs(logs)
            &&& logs@[0].block_number == Some(block)
        },
        !(search.after(reply) is Found) ==> {
            if search.to_block - 500 >= search.config_start_block {
                search.after(reply) == SearchStep::Continue(
                    StartBlockSearch { to_block: (search.to_block - 500) as u64, ..search },
                )
            } else {
                search.after(reply) == SearchStep::Failed(
                    DiscoveryError::NotFound {
                        target_nonce: search.target_nonce,
                        config_start_block: search.config_start_block,
                        finalized: search.finalized,
                    },
                )
            }
        },
{
}

/// Whether the reply holds only entries of the blocks from `from` up to `to`.
pub open spec fn is_of_blocks(reply: LogsReply, from: int, to: int) -> bool {
    reply matches LogsReply::Logs(logs) ==> forall|i: int|
        0 <= i < logs@.len() ==> ((#[trigger] logs@[i]).block_number matches Some(block) ==> from
            <= block <= to)
}

/// Where the replies hold entries of the blocks between the configured and the finalized one, the
/// block that a search finds is one of those; and it is the block of the first entry of a reply.
pub proof fn law_found_block_is_one_searched(
    search: StartBlockSearch,
    replies: Seq<LogsReply>,
    block: u64,
)
    requires
        forall|j: int|
            0 <= j < replies.len() ==> is_of_blocks(
                #[trigger] replies[j],
                search.config_start_block as int,
                search.finalized as int,
            ),
        run(search, replies) == SearchStep::Found(block),
    ensures
        search.config_start_block <= block <= search.finalized,
        exists|j: int|
            0 <= j < replies.len() && (#[trigger] replies[j] matches LogsReply::Logs(logs)
                && logs@.len() > 0 && logs@[0].block_number == Some(block)),
    decreases replies.len(),
{
    law_step_goes_by_the_first_entry(search, replies[0]);
    assert(is_of_blocks(
        replies[0],
        search.config_start_block as int,
        search.finalized as int,
    ));
    match search.after(replies[0]) {
        SearchStep::Continue(next) => {
            let later = replies.skip(1);
            assert forall|j: int| 0 <= j < later.len() implies is_of_blocks(
                #[trigger] later[j],
                next.config_start_block as int,
                next.finalized as int,
            ) by {
                assert(later[j] == replies[j + 1]);
            }
            law_found_block_is_one_searched(next, later, block);
            let j = choose|j: int|
                0 <= j < later.len() && (#[trigger] later[j] matches LogsReply::Logs(logs)
                    && logs@.len() > 0 && logs@[0].block_number == Some(block));
            assert(replies[j + 1] == later[j]);
        },
        SearchStep::Found(found) => {
            assert(search.after(replies[0]) == SearchStep::Found(block));
            let reply = replies[0];
            assert(reply matches LogsReply::Logs(logs) && logs@[0].block_number == Some(block));
        },
        SearchStep::Failed(_) => {},
    }
}

} // verus!
