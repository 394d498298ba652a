//! The steps in which nodes get onto the stack.
use crate::trie::builder::ParallelHashBuilder;
use crate::trie::builder::state::{
    any_slot, db_masks_are, digit_before, entries_model, entry_model, full_stack_is, lemma_flag,
    lemma_full_push, stack_is, updates_are, History, PendingBranchNode,
};
use crate::trie::form::{form_rlp, form_rlps, NodeForm};
use crate::trie::lemmas::{
    all_start_with, lemma_depth, lemma_fan_bit_clear, lemma_fan_empty, lemma_fan_masks,
};
use crate::trie::levels::{level_fan, level_forms, levels_off};
use crate::trie::mask::{bits_below, is_subset, nibble_bit, TrieMask};
use crate::trie::model::{shared_len, subtrie, trie_form, BranchModel, Fan, Item};
use crate::trie::nibbles::Nibbles;
use crate::trie::node::{
    any_mentions, clone_nodes, has_slot, lemma_node_forms, lemma_node_ok_extend, mentions,
    node_form, node_forms, node_ok, same_node, BranchReport, LeafNode, RawRlpNode, ReportModel,
};
use crate::trie::rlp::{hash_of, reference_hash};
use crate::trie::updates::{copy_bytes, BranchNodeCompact};
use crate::trie::value::HashBuilderValue;
use std::sync::Arc;
use vstd::prelude::*;

verus! {

impl ParallelHashBuilder {
    /// Sets the number of tree and hash masks.
    pub(super) fn resize_masks(&mut self, new_len: usize)
        ensures
            final(self).tree_masks@.len() == new_len,
            final(self).hash_masks@.len() == new_len,
            forall|i: int|
                #![trigger final(self).tree_masks@[i]]
                0 <= i < new_len ==> final(self).tree_masks@[i].bits == if i
                    < old(self).tree_masks@.len() {
                    old(self).tree_masks@[i].bits
                } else {
                    0
                },
            forall|i: int|
                #![trigger final(self).hash_masks@[i]]
                0 <= i < new_len ==> final(self).hash_masks@[i].bits == if i
                    < old(self).hash_masks@.len() {
                    old(self).hash_masks@[i].bits
                } else {
                    0
                },
            final(self).key == old(self).key,
            final(self).value == old(self).value,
            final(self).stack == old(self).stack,
            final(self).state_masks == old(self).state_masks,
            final(self).stored_in_database == old(self).stored_in_database,
            final(self).updated_branch_nodes == old(self).updated_branch_nodes,
            final(self).inbox == old(self).inbox,
            final(self).history == old(self).history,
    {
        resize_with_empty(&mut self.tree_masks, new_len);
        resize_with_empty(&mut self.hash_masks, new_len);
    }

    /// Moves what the lowest masks say of the node at the end of `current` up to the level above
    /// depth `len_from`, where an extension leads to it.
    pub(super) fn update_masks(&mut self, current: &Nibbles, len_from: usize)
        requires
            current.wf(),
            len_from < current@.len(),
            old(self).tree_masks@.len() >= current@.len(),
            old(self).hash_masks@.len() == old(self).tree_masks@.len(),
        ensures
            len_from == 0 ==> final(self).tree_masks@ == old(self).tree_masks@,
            len_from == 0 ==> final(self).hash_masks@ == old(self).hash_masks@,
            len_from > 0 ==> {
                let level = len_from - 1;
                let flag = nibble_bit(current@[level]);
                let below = old(self).tree_masks@[current@.len() - 1].bits;
                &&& final(self).hash_masks@ == old(self).hash_masks@.update(
                    level,
                    TrieMask { bits: old(self).hash_masks@[level].bits & !flag },
                )
                &&& final(self).tree_masks@ == if below != 0 {
                    old(self).tree_masks@.update(
                        level,
                        TrieMask { bits: old(self).tree_masks@[level].bits | flag },
                    )
                } else {
                    old(self).tree_masks@
                }
            },
            final(self).key == old(self).key,
            final(self).value == old(self).value,
            final(self).stack == old(self).stack,
            final(self).state_masks == old(self).state_masks,
            final(self).stored_in_database == old(self).stored_in_database,
            final(self).updated_branch_nodes == old(self).updated_branch_nodes,
            final(self).inbox == old(self).inbox,
            final(self).history == old(self).history,
    {
        if len_from > 0 {
            let level: usize = len_from - 1;
            let flag = TrieMask::from_nibble(current.at(level));
            let hash_mask = self.hash_masks[level].without(flag);
            self.hash_masks[level] = hash_mask;
            if !self.tree_masks[current.len() - 1].is_empty() {
                let tree_mask = self.tree_masks[level].union(flag);
                self.tree_masks[level] = tree_mask;
            }
        }
    }

    /// Pushes the node of the value onto the stack: a leaf with the path `short_key`, or a hash.
    /// Returns whether it was a hash; that is noted in the masks above the end of `current`.
    pub(super) fn push_value(&mut self, current: &Nibbles, short_key: &Nibbles) -> (r: bool)
        requires
            current.wf(),
            short_key.wf(),
            current@.len() > 0,
            old(self).tree_masks@.len() >= current@.len(),
            old(self).hash_masks@.len() == old(self).tree_masks@.len(),
        ensures
            r == (old(self).value is Hash),
            final(self).stack@.len() == old(self).stack@.len() + 1,
            final(self).stack@.drop_last() == old(self).stack@,
            old(self).value matches HashBuilderValue::Bytes(bytes) ==> {
                &&& final(self).stack@.last() matches RawRlpNode::Leaf(leaf)
                &&& leaf.key@ == short_key@
                &&& leaf.value@ == bytes@
                &&& final(self).tree_masks@ == old(self).tree_masks@
                &&& final(self).hash_masks@ == old(self).hash_masks@
            },
            old(self).value matches HashBuilderValue::Hash(hash) ==> {
                let level = current@.len() - 1;
                let flag = nibble_bit(current@[level]);
                &&& final(self).stack@.last() == RawRlpNode::Word(hash)
                &&& final(self).tree_masks@ == if old(self).stored_in_database {
                    old(self).tree_masks@.update(
                        level,
                        TrieMask { bits: old(self).tree_masks@[level].bits | flag },
                    )
                } else {
                    old(self).tree_masks@
                }
                &&& final(self).hash_masks@ == old(self).hash_masks@.update(
                    level,
                    TrieMask { bits: old(self).hash_masks@[level].bits | flag },
                )
            },
            final(self).key == old(self).key,
            final(self).value == old(self).value,
            final(self).state_masks == old(self).state_masks,
            final(self).stored_in_database == old(self).stored_in_database,
            final(self).updated_branch_nodes == old(self).updated_branch_nodes,
            final(self).inbox == old(self).inbox,
            final(self).history == old(self).history,
    {
        match &self.value {
            HashBuilderValue::Bytes(bytes) => {
                let leaf = LeafNode {
                    key: short_key.clone(),
                    value: copy_bytes(bytes.as_slice()),
                };
                self.stack.push(RawRlpNode::Leaf(leaf));
                assert(self.stack@.drop_last() =~= old(self).stack@);
                false
            },
            HashBuilderValue::Hash(hash) => {
                let word: [u8; 32] = *hash;
                self.stack.push(RawRlpNode::Word(word));
                assert(self.stack@.drop_last() =~= old(self).stack@);
                let level: usize = current.len() - 1;
                let flag = TrieMask::from_nibble(current.at(level));
                if self.stored_in_database {
                    let tree_mask = self.tree_masks[level].union(flag);
                    self.tree_masks[level] = tree_mask;
                }
                let hash_mask = self.hash_masks[level].union(flag);
                self.hash_masks[level] = hash_mask;
                true
            },
        }
    }
}

impl ParallelHashBuilder {
    /// Puts the node of the trie `g`, whose keys start with `current`, on top of the stack as it
    /// is seen from depth `len_from`. Where `build_extensions` holds, the node at the end of
    /// `current` is on the stack; otherwise `g` is the last item.
    pub(super) fn fold(
        &mut self,
        current: &Nibbles,
        len_from: usize,
        build_extensions: bool,
        Ghost(levels): Ghost<Seq<Seq<Item>>>,
        Ghost(g): Ghost<Seq<Item>>,
    )
        requires
            current.wf(),
            0 < current@.len(),
            len_from <= current@.len(),
            levels.len() <= len_from,
            levels_off(levels, current@),
            old(self).tree_masks@.len() >= levels.len(),
            g.len() > 0,
            all_start_with(g, current@),
            !build_extensions ==> {
                &&& g == seq![old(self).last_item()]
                &&& current@ == old(self).key@
                &&& full_stack_is(
                    old(self).stack@,
                    level_forms(levels, old(self).base()),
                    old(self).history@.reports,
                )
                &&& db_masks_are(
                    old(self).tree_masks@,
                    old(self).hash_masks@,
                    levels,
                    0,
                    0,
                    false,
                    false,
                )
            },
            build_extensions ==> {
                let top = subtrie(g, current@.len());
                &&& g.len() > 1
                &&& shared_len(g) == current@.len()
                &&& full_stack_is(
                    old(self).stack@,
                    level_forms(levels, old(self).base()).push(
                        trie_form(g, current@.len(), level_forms(levels, old(self).base())),
                    ),
                    old(self).history@.reports,
                )
                &&& db_masks_are(
                    old(self).tree_masks@,
                    old(self).hash_masks@,
                    levels,
                    current@.len() as int,
                    digit_before(current@, current@.len() as int),
                    top.is_hash,
                    top.in_db,
                )
                &&& old(self).tree_masks@.len() == current@.len()
            },
        ensures
            ({
                let top = subtrie(g, len_from as nat);
                &&& full_stack_is(
                    final(self).stack@,
                    level_forms(levels, final(self).base()).push(
                        trie_form(g, len_from as nat, level_forms(levels, final(self).base())),
                    ),
                    final(self).history@.reports,
                )
                &&& db_masks_are(
                    final(self).tree_masks@,
                    final(self).hash_masks@,
                    levels,
                    len_from as int,
                    digit_before(current@, len_from as int),
                    top.is_hash,
                    top.in_db,
                )
                &&& final(self).tree_masks@.len() >= len_from
                &&& final(self).tree_masks@.len() == if (build_extensions || old(
                    self,
                ).value is Hash) && len_from < current@.len() {
                    len_from as nat
                } else if old(self).tree_masks@.len() < current@.len() {
                    current@.len()
                } else {
                    old(self).tree_masks@.len()
                }
            }),
            forall|slot: usize|
                any_slot(old(self).stack@, slot) ==> #[trigger] any_slot(final(self).stack@, slot),
            forall|slot: usize| #[trigger]
                any_mentions(final(self).stack@, slot) ==> any_mentions(old(self).stack@, slot),
            final(self).key == old(self).key,
            final(self).value == old(self).value,
            final(self).state_masks == old(self).state_masks,
            final(self).stored_in_database == old(self).stored_in_database,
            final(self).updated_branch_nodes == old(self).updated_branch_nodes,
            final(self).inbox == old(self).inbox,
            final(self).history == old(self).history,
    {
        let c: usize = current.len();
        let ghost bottom = subtrie(g, c as nat);
        let ghost lower = level_forms(levels, self.base());
        let ghost reports = self.history@.reports;
        let ghost stack0 = self.stack@;
        proof {
            lemma_depth(g, current@, len_from as nat);
            lemma_full_push(lower, trie_form(g, c as nat, lower));
            lemma_full_push(lower, trie_form(g, len_from as nat, lower));
        }
        if self.tree_masks.len() < c {
            self.resize_masks(c);
        }
        let short_key = current.slice(len_from, c);
        assert(short_key@ =~= current@.skip(len_from as int));
        let mut on_stack: bool = build_extensions;
        if !build_extensions {
            on_stack = self.push_value(current, &short_key);
            proof {
                let stack1 = self.stack@;
                assert forall|i: int| #![trigger stack1[i]] 0 <= i < stack0.len() implies stack1[i]
                    == stack0[i] by {
                    assert(stack1.drop_last()[i] == stack0[i]);
                }
                assert(stack1[stack0.len() as int] == stack1.last());
            }
        }
        let ghost stack1 = self.stack@;
        assert forall|slot: usize| #[trigger] any_mentions(stack1, slot) implies any_mentions(
            stack0,
            slot,
        ) by {
            let i = choose|i: int| 0 <= i < stack1.len() && mentions(#[trigger] stack1[i], slot);
            assert(stack0[i] == stack1[i]);
        }
        assert(on_stack ==> full_stack_is(
            stack1,
            lower.push(trie_form(g, c as nat, lower)),
            reports,
        ));
        assert forall|slot: usize| any_slot(stack0, slot) implies #[trigger] any_slot(
            stack1,
            slot,
        ) by {
            let i = choose|i: int| 0 <= i < stack0.len() && has_slot(#[trigger] stack0[i], slot);
            assert(has_slot(stack1[i], slot));
        }
        assert(db_masks_are(
            self.tree_masks@,
            self.hash_masks@,
            levels,
            c as int,
            digit_before(current@, c as int),
            bottom.is_hash,
            bottom.in_db,
        ));
        if on_stack && len_from < c {
            let ghost tree1 = self.tree_masks@;
            let ghost hash1 = self.hash_masks@;
            self.update_masks(current, len_from);
            match self.stack.pop() {
                Some(top) => {
                    assert(top == stack1.last());
                    self.stack.push(RawRlpNode::Extension((short_key, Box::new(top))));
                },
                None => {},
            }
            self.resize_masks(len_from);
            proof {
                let stack2 = self.stack@;
                let last = stack1.len() - 1;
                assert(stack2.len() == stack1.len());
                assert(forall|i: int| 0 <= i < last ==> #[trigger] stack2[i] == stack1[i]);
                assert(node_form(stack2[last]) == trie_form(g, len_from as nat, lower));
                assert forall|slot: usize| any_slot(stack1, slot) implies #[trigger] any_slot(
                    stack2,
                    slot,
                ) by {
                    let i = choose|i: int|
                        0 <= i < stack1.len() && has_slot(#[trigger] stack1[i], slot);
                    assert(has_slot(stack2[i], slot));
                }
                assert forall|slot: usize| #[trigger]
                    any_mentions(stack2, slot) implies any_mentions(stack1, slot) by {
                    let i = choose|i: int|
                        0 <= i < stack2.len() && mentions(#[trigger] stack2[i], slot);
                    assert(mentions(stack1[i], slot));
                }
                if len_from > 0 {
                    let level = len_from - 1;
                    let digit = current@[level];
                    let f = level_fan(levels, level);
                    if level < levels.len() {
                        lemma_fan_bit_clear(levels[level], level as nat, digit);
                        lemma_fan_masks(levels[level], level as nat, 16);
                    } else {
                        lemma_fan_empty(level as nat, 16);
                        lemma_fan_masks(Seq::empty(), level as nat, 16);
                        lemma_fan_bit_clear(Seq::empty(), level as nat, digit);
                    }
                    lemma_flag(f.hash_mask, f.state_mask, digit);
                    let low = current@[c - 1];
                    lemma_fan_empty((c - 1) as nat, 16);
                    lemma_fan_masks(Seq::empty(), (c - 1) as nat, 16);
                    lemma_fan_bit_clear(Seq::empty(), (c - 1) as nat, low);
                    lemma_flag(0, 0, low);
                    assert(level_fan(levels, c - 1).tree_mask == 0);
                    assert((tree1[c - 1].bits != 0) == bottom.in_db);
                }
            }
        }
    }
}

impl ParallelHashBuilder {
    /// Takes the children of the branch at level `len` off the stack and puts the branch in their
    /// place. The branch holds the whole stack as it was, and where in it the first child is.
    /// Returns the slot to which the branch will report, where branch nodes are retained.
    pub(super) fn push_branch_node(
        &mut self,
        len: usize,
        Ghost(below): Ghost<Seq<NodeForm>>,
        Ghost(forms): Ghost<Seq<NodeForm>>,
        Ghost(f): Ghost<Fan>,
    ) -> (r: Option<usize>)
        requires
            len < old(self).state_masks@.len(),
            len < old(self).hash_masks@.len(),
            old(self).state_masks@[len as int].bits == f.state_mask,
            old(self).hash_masks@[len as int].bits == f.hash_mask,
            forms.len() == bits_below(f.state_mask, 16),
            form_rlps(forms) == f.rlps,
            old(self).inbox@.len() == old(self).history@.reports.len(),
            stack_is(
                old(self).stack@,
                below + forms,
                old(self).history@.reports,
            ),
        ensures
            ({
                let first = old(self).stack@.len() - bits_below(
                    old(self).state_masks@[len as int].bits,
                    16,
                );
                &&& final(self).stack@.len() == first + 1
                &&& final(self).stack@.drop_last() == old(self).stack@.take(first)
                &&& final(self).stack@.last() matches RawRlpNode::Branch(branch)
                &&& branch.0@.len() == old(self).stack@.len()
                &&& forall|i: int|
                    0 <= i < branch.0@.len() ==> same_node(
                        #[trigger] branch.0@[i],
                        old(self).stack@[i],
                    )
                &&& node_forms(branch.0@) == node_forms(old(self).stack@)
                &&& branch.1 == old(self).state_masks@[len as int]
                &&& branch.2 == old(self).hash_masks@[len as int]
                &&& branch.3 == first
                &&& branch.4 == r
            }),
            stack_is(
                final(self).stack@,
                below.push(f.form(below, forms)),
                final(self).history@.reports,
            ),
            r == (if old(self).updated_branch_nodes is Some {
                Some(old(self).inbox@.len() as usize)
            } else {
                None
            }),
            match r {
                Some(slot) => {
                    &&& slot == old(self).inbox@.len()
                    &&& final(self).history@.reports == old(self).history@.reports.push(
                        ReportModel { hashed: f.hashed() },
                    )
                    &&& final(self).inbox@ == old(self).inbox@.push(None)
                    &&& any_slot(final(self).stack@, slot)
                },
                None => {
                    &&& final(self).history@.reports == old(self).history@.reports
                    &&& final(self).inbox@ == old(self).inbox@
                },
            },
            forall|slot: usize|
                any_slot(old(self).stack@, slot) ==> #[trigger] any_slot(final(self).stack@, slot),
            forall|slot: usize| #[trigger]
                any_mentions(final(self).stack@, slot) ==> any_mentions(old(self).stack@, slot)
                    || r == Some(slot),
            final(self).history@.words == old(self).history@.words,
            final(self).history@.levels == old(self).history@.levels,
            final(self).history@.retained == old(self).history@.retained,
            final(self).key == old(self).key,
            final(self).value == old(self).value,
            final(self).state_masks == old(self).state_masks,
            final(self).tree_masks == old(self).tree_masks,
            final(self).hash_masks == old(self).hash_masks,
            final(self).stored_in_database == old(self).stored_in_database,
            final(self).updated_branch_nodes == old(self).updated_branch_nodes,
    {
        let ghost stack0 = self.stack@;
        let ghost reports = self.history@.reports;
        let state_mask = self.state_masks[len];
        let hash_mask = self.hash_masks[len];
        let first_child_idx: usize = self.stack.len() - state_mask.count_ones();
        let mut slot: Option<usize> = None;
        let ghost mut reports1 = reports;
        if self.updated_branch_nodes.is_some() {
            slot = Some(self.inbox.len());
            self.inbox.push(None);
            proof {
                let next = ReportModel { hashed: f.hashed() };
                reports1 = reports.push(next);
                assert forall|i: int| 0 <= i < stack0.len() implies node_ok(
                    #[trigger] stack0[i],
                    reports1,
                ) by {
                    lemma_node_ok_extend(stack0[i], reports, next);
                }
            }
            self.history = Ghost(
                History {
                    words: self.history@.words,
                    levels: self.history@.levels,
                    reports: reports1,
                    retained: self.history@.retained,
                },
            );
        }
        let nodes = clone_nodes(&self.stack);
        let ghost copies = nodes@;
        let branch = RawRlpNode::Branch(
            (Arc::new(nodes), state_mask, hash_mask, first_child_idx, slot),
        );
        proof {
            let raw = copies.skip(first_child_idx as int);
            lemma_node_forms(copies);
            lemma_node_forms(stack0);
            lemma_node_forms(raw);
            assert forall|i: int| 0 <= i < copies.len() implies #[trigger] node_forms(copies)[i]
                == (below + forms)[i] by {
                assert(node_form(stack0[i]) == (below + forms)[i]);
            }
            assert(node_forms(copies) =~= below + forms);
            assert(node_forms(raw) =~= forms);
            assert(node_form(branch) == f.form(below, forms));
            assert forall|i: int| first_child_idx <= i < copies.len() implies node_ok(
                #[trigger] copies[i],
                reports1,
            ) by {
                assert(node_ok(stack0[i], reports1));
            }
            assert(node_ok(branch, reports1));
        }
        self.stack.truncate(first_child_idx);
        self.stack.push(branch);
        proof {
            let stack1 = self.stack@;
            assert(stack1[first_child_idx as int] == branch);
            assert(stack1.drop_last() =~= stack0.take(first_child_idx as int));
            assert(forall|i: int| 0 <= i < first_child_idx ==> #[trigger] stack1[i] == stack0[i]);
            assert forall|s: usize| any_slot(stack0, s) implies #[trigger] any_slot(stack1, s) by {
                let i = choose|i: int| 0 <= i < stack0.len() && has_slot(#[trigger] stack0[i], s);
                if i < first_child_idx {
                    assert(has_slot(stack1[i], s));
                } else {
                    assert(has_slot(copies[i], s));
                    assert(has_slot(stack1[first_child_idx as int], s));
                }
            }
            assert forall|s: usize| #[trigger] any_mentions(stack1, s) implies any_mentions(
                stack0,
                s,
            ) || slot == Some(s) by {
                let i = choose|i: int| 0 <= i < stack1.len() && mentions(#[trigger] stack1[i], s);
                if i < first_child_idx {
                    assert(mentions(stack0[i], s));
                } else if slot != Some(s) {
                    let k = choose|k: int|
                        0 <= k < copies.len() && mentions(#[trigger] copies[k], s);
                    assert(mentions(stack0[k], s));
                }
            }
            if slot is Some {
                assert(has_slot(stack1[first_child_idx as int], slot->Some_0));
            }
        }
        slot
    }

    /// The hash of the node on top of the stack.
    fn top_hash(&self) -> (r: [u8; 32])
        requires
            self.stack@.len() > 0,
            node_ok(self.stack@.last(), self.history@.reports),
            self.inbox@.len() == self.history@.reports.len(),
        ensures
            r@ == reference_hash(form_rlp(node_form(self.stack@.last()))),
    {
        let mut drafts: Vec<Option<BranchReport>> = Vec::new();
        while drafts.len() < self.inbox.len()
            invariant
                drafts@.len() <= self.inbox@.len(),
            decreases self.inbox@.len() - drafts@.len(),
        {
            drafts.push(None);
        }
        let top = &self.stack[self.stack.len() - 1];
        let rlp = top.rlp(&mut drafts, Ghost(self.history@.reports));
        hash_of(&rlp)
    }

    /// Notes the branch at level `len` in the masks of the level above, and retains it where it
    /// is one for the database and branch nodes are retained. It is on top of the stack. Its hashes
    /// are not known yet; where it is the root of the trie, its own hash is.
    pub(super) fn store_branch_node(
        &mut self,
        current: &Nibbles,
        len: usize,
        slot: Option<usize>,
        Ghost(f): Ghost<Fan>,
        Ghost(all): Ghost<Map<Seq<u8>, BranchModel>>,
    )
        requires
            current.wf(),
            len <= current@.len(),
            len < old(self).state_masks@.len(),
            len < old(self).tree_masks@.len(),
            old(self).tree_masks@.len() == old(self).hash_masks@.len(),
            old(self).state_masks@[len as int].bits == f.state_mask,
            old(self).tree_masks@[len as int].bits == f.tree_mask,
            old(self).hash_masks@[len as int].bits == f.hash_mask,
            is_subset(f.tree_mask, f.state_mask),
            is_subset(f.hash_mask, f.state_mask),
            old(self).inbox@.len() == old(self).history@.reports.len(),
            updates_are(
                old(self).updated_branch_nodes,
                old(self).stack@,
                old(self).inbox@,
                old(self).history@.reports,
                old(self).history@.retained,
                all,
            ),
            old(self).updated_branch_nodes is Some ==> {
                &&& slot matches Some(s)
                &&& s < old(self).history@.reports.len()
                &&& old(self).history@.reports[s as int].hashed == f.hashed()
                &&& old(self).stack@.len() > 0
                &&& node_ok(old(self).stack@.last(), old(self).history@.reports)
                &&& form_rlp(node_form(old(self).stack@.last())) == f.reference()
                &&& any_slot(old(self).stack@, s)
                &&& old(self).inbox@[s as int] is None
                &&& !old(self).history@.retained->Some_0.dropped.contains(
                    current@.take(len as int),
                )
            },
        ensures
            ({
                let in_db = f.tree_mask != 0 || f.hash_mask != 0;
                let path = current@.take(len as int);
                let level = len - 1;
                &&& final(self).hash_masks@ == if len > 0 {
                    old(self).hash_masks@.update(
                        level,
                        TrieMask {
                            bits: old(self).hash_masks@[level].bits | nibble_bit(current@[level]),
                        },
                    )
                } else {
                    old(self).hash_masks@
                }
                &&& final(self).tree_masks@ == if len > 0 && in_db {
                    old(self).tree_masks@.update(
                        level,
                        TrieMask {
                            bits: old(self).tree_masks@[level].bits | nibble_bit(current@[level]),
                        },
                    )
                } else {
                    old(self).tree_masks@
                }
                &&& updates_are(
                    final(self).updated_branch_nodes,
                    final(self).stack@,
                    final(self).inbox@,
                    final(self).history@.reports,
                    final(self).history@.retained,
                    if in_db {
                        all.insert(path, f.branch(path))
                    } else {
                        all
                    },
                )
            }),
            match (old(self).updated_branch_nodes, final(self).updated_branch_nodes) {
                (Some(before), Some(after)) => {
                    let path = current@.take(len as int);
                    if f.tree_mask != 0 || f.hash_mask != 0 {
                        let entry = after@[path];
                        &&& after@ == before@.insert(path, entry)
                        &&& entry.slot == slot
                        &&& entry.node.state_mask == old(self).state_masks@[len as int]
                        &&& entry.node.tree_mask == old(self).tree_masks@[len as int]
                        &&& entry.node.hash_mask == old(self).hash_masks@[len as int]
                        &&& entry.node.hashes@.len() == bits_below(f.hash_mask, 16)
                        &&& forall|i: int, j: int|
                            #![trigger entry.node.hashes@[i]@[j]]
                            0 <= i < entry.node.hashes@.len() && 0 <= j < 32
                                ==> entry.node.hashes@[i]@[j] == 0
                        &&& match entry.node.root_hash {
                            Some(hash) => len == 0 && hash@ == reference_hash(
                                form_rlp(node_form(old(self).stack@.last())),
                            ),
                            None => len > 0,
                        }
                    } else {
                        after@ == before@
                    }
                },
                (None, None) => true,
                _ => false,
            },
            final(self).key == old(self).key,
            final(self).value == old(self).value,
            final(self).stack == old(self).stack,
            final(self).state_masks == old(self).state_masks,
            final(self).stored_in_database == old(self).stored_in_database,
            final(self).inbox == old(self).inbox,
            final(self).history == old(self).history,
    {
        let ghost path = current@.take(len as int);
        let ghost reports = self.history@.reports;
        if len > 0 {
            let level: usize = len - 1;
            let hash_mask = self.hash_masks[level].union(TrieMask::from_nibble(current.at(level)));
            self.hash_masks[level] = hash_mask;
        }
        let store_in_db_trie = !self.tree_masks[len].is_empty() || !self.hash_masks[len].is_empty();
        if store_in_db_trie {
            let retaining = self.updated_branch_nodes.is_some();
            let root_hash = if retaining && len == 0 {
                Some(self.top_hash())
            } else {
                None
            };
            if len > 0 {
                let level: usize = len - 1;
                let tree_mask = self.tree_masks[level].union(
                    TrieMask::from_nibble(current.at(level)),
                );
                self.tree_masks[level] = tree_mask;
            }
            match &mut self.updated_branch_nodes {
                Some(map) => {
                    let ghost entries0 = map@;
                    let common_prefix = current.slice(0, len);
                    assert(common_prefix@ =~= path);
                    let hash_mask = self.hash_masks[len];
                    let node = BranchNodeCompact::new(
                        self.state_masks[len],
                        self.tree_masks[len],
                        hash_mask,
                        zero_words(hash_mask.count_ones()),
                        root_hash,
                    );
                    let entry = PendingBranchNode { node, slot };
                    map.insert(common_prefix, entry);
                    proof {
                        let kept = self.history@.retained->Some_0;
                        let now0 = all.remove_keys(kept.dropped);
                        let all1 = all.insert(path, f.branch(path));
                        let now1 = all1.remove_keys(kept.dropped);
                        assert(now1 =~= now0.insert(path, f.branch(path)));
                        assert(entry_model(entry, reports) == f.branch(path));
                        assert(entries_model(map@, reports) =~= entries_model(
                            entries0,
                            reports,
                        ).insert(path, f.branch(path)));
                        assert(kept.earlier.union_prefer_right(now1)
                            =~= kept.earlier.union_prefer_right(now0).insert(path, f.branch(path)));
                    }
                },
                None => {},
            }
        }
    }
}

/// Takes the empty masks off the end.
pub(super) fn pop_empty(masks: &mut Vec<TrieMask>)
    ensures
        final(masks)@.len() <= old(masks)@.len(),
        final(masks)@ == old(masks)@.take(final(masks)@.len() as int),
        final(masks)@.len() > 0 ==> final(masks)@.last().bits != 0,
        forall|i: int|
            #![trigger old(masks)@[i]]
            final(masks)@.len() <= i < old(masks)@.len() ==> old(masks)@[i].bits == 0,
{
    while masks.len() > 0 && masks[masks.len() - 1].is_empty()
        invariant
            masks@.len() <= old(masks)@.len(),
            masks@ == old(masks)@.take(masks@.len() as int),
            forall|i: int|
                #![trigger old(masks)@[i]]
                masks@.len() <= i < old(masks)@.len() ==> old(masks)@[i].bits == 0,
        decreases masks@.len(),
    {
        let ghost last = masks@.len() - 1;
        assert(masks@[last] == old(masks)@[last]);
        masks.pop();
    }
}

/// The given number of words, all zero.
pub(super) fn zero_words(n: usize) -> (r: Vec<[u8; 32]>)
    ensures
        r@.len() == n,
        forall|i: int, j: int|
            #![trigger r@[i]@[j]]
            0 <= i < n && 0 <= j < 32 ==> r@[i]@[j] == 0,
{
    let mut words: Vec<[u8; 32]> = Vec::new();
    while words.len() < n
        invariant
            words@.len() <= n,
            forall|i: int, j: int|
                #![trigger words@[i]@[j]]
                0 <= i < words@.len() && 0 <= j < 32 ==> words@[i]@[j] == 0,
        decreases n - words@.len(),
    {
        words.push([0u8;32]);
    }
    words
}

/// Sets the number of masks; new ones are empty.
pub(super) fn resize_with_empty(masks: &mut Vec<TrieMask>, new_len: usize)
    ensures
        final(masks)@.len() == new_len,
        forall|i: int|
            #![trigger final(masks)@[i]]
            0 <= i < new_len ==> final(masks)@[i].bits == if i < old(masks)@.len() {
                old(masks)@[i].bits
            } else {
                0
            },
{
    if new_len <= masks.len() {
        masks.truncate(new_len);
    } else {
        while masks.len() < new_len
            invariant
                old(masks)@.len() <= masks@.len() <= new_len,
                forall|i: int|
                    #![trigger masks@[i]]
                    0 <= i < masks@.len() ==> masks@[i].bits == if i < old(masks)@.len() {
                        old(masks)@[i].bits
                    } else {
                        0
                    },
            decreases new_len - masks@.len(),
        {
            masks.push(TrieMask::new(0));
        }
    }
}

} // verus!
