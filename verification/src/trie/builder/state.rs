//! How the state of a hash builder stands for the items that it was given.
use crate::trie::builder::model::Retained;
use crate::trie::form::{is_full, NodeForm};
use crate::trie::levels::level_fan;
use crate::trie::mask::{has_bit, is_subset, nibble_bit, TrieMask};
use crate::trie::model::{BranchModel, Item};
use crate::trie::node::{
    any_mentions, has_slot, node_form, node_ok, reported, BranchReport, RawRlpNode, ReportModel,
};
use crate::trie::updates::{BranchNodeCompact, PathMap};
use vstd::prelude::*;

verus! {

/// A branch node whose hashes are not known yet, and the slot to which they will be reported.
#[derive(Debug)]
pub struct PendingBranchNode {
    pub node: BranchNodeCompact,
    pub slot: Option<usize>,
}

/// The ghost side of a builder.
pub struct History {
    pub words: Seq<Seq<u8>>,
    pub levels: Seq<Seq<Item>>,
    pub reports: Seq<ReportModel>,
    pub retained: Option<Retained>,
}

/// The branch node that an entry stands for.
pub open spec fn entry_model(
    entry: PendingBranchNode,
    reports: Seq<ReportModel>,
) -> BranchModel {
    let report = reports[entry.slot->Some_0 as int];
    BranchModel {
        state_mask: entry.node.state_mask.bits,
        tree_mask: entry.node.tree_mask.bits,
        hash_mask: entry.node.hash_mask.bits,
        hashed: report.hashed,
        root_hash: match entry.node.root_hash {
            Some(hash) => Some(hash@),
            None => None,
        },
    }
}

/// The branch nodes that the entries stand for.
pub open spec fn entries_model(
    entries: Map<Seq<u8>, PendingBranchNode>,
    reports: Seq<ReportModel>,
) -> Map<Seq<u8>, BranchModel> {
    Map::new(
        |path: Seq<u8>| entries.dom().contains(path),
        |path: Seq<u8>| entry_model(entries[path], reports),
    )
}

/// Whether one of the nodes is, or contains, a branch that reports to `slot`.
pub open spec fn any_slot(stack: Seq<RawRlpNode>, slot: usize) -> bool {
    exists|i: int| 0 <= i < stack.len() && has_slot(#[trigger] stack[i], slot)
}

/// The stack holds nodes of the given form, which can be encoded, and no slots but those of the
/// reports.
pub open spec fn stack_is(
    stack: Seq<RawRlpNode>,
    forms: Seq<NodeForm>,
    reports: Seq<ReportModel>,
) -> bool {
    &&& stack.len() == forms.len()
    &&& forall|i: int|
        #![trigger stack[i]]
        0 <= i < stack.len() ==> node_form(stack[i]) == forms[i] && node_ok(stack[i], reports)
    &&& forall|slot: usize| #[trigger] any_mentions(stack, slot) ==> slot < reports.len()
}

/// The stack holds nodes of the given form, none of which has a branch without children.
pub open spec fn full_stack_is(
    stack: Seq<RawRlpNode>,
    forms: Seq<NodeForm>,
    reports: Seq<ReportModel>,
) -> bool {
    &&& stack_is(stack, forms, reports)
    &&& all_full(forms)
}

/// Whether none of the nodes has a branch without children.
pub open spec fn all_full(forms: Seq<NodeForm>) -> bool {
    forall|i: int| 0 <= i < forms.len() ==> is_full(#[trigger] forms[i])
}

/// One node more.
pub proof fn lemma_full_push(forms: Seq<NodeForm>, form: NodeForm)
    ensures
        all_full(forms.push(form)) <==> all_full(forms) && is_full(form),
{
    let more = forms.push(form);
    if all_full(more) {
        assert(is_full(more[forms.len() as int]));
        assert forall|i: int| 0 <= i < forms.len() implies is_full(#[trigger] forms[i]) by {
            assert(forms[i] == more[i]);
        }
    }
}

/// The state masks are those of the levels.
pub open spec fn state_masks_are(masks: Seq<TrieMask>, levels: Seq<Seq<Item>>) -> bool {
    &&& masks.len() == levels.len()
    &&& forall|i: int|
        #![trigger masks[i]]
        0 <= i < masks.len() ==> masks[i].bits == level_fan(levels, i).state_mask
}

/// The mask, with the bit of `digit` set where `set` holds.
pub open spec fn flagged(mask: u16, set: bool, digit: u8) -> u16 {
    if set {
        mask | nibble_bit(digit)
    } else {
        mask
    }
}

/// The tree and hash masks are those of the levels, but for the bit of `digit` at the level above
/// depth `d`, which says how the trie `top` hangs there.
pub open spec fn db_masks_are(
    tree_masks: Seq<TrieMask>,
    hash_masks: Seq<TrieMask>,
    levels: Seq<Seq<Item>>,
    d: int,
    digit: u8,
    is_hash: bool,
    in_db: bool,
) -> bool {
    &&& tree_masks.len() == hash_masks.len()
    &&& forall|i: int|
        #![trigger tree_masks[i]]
        0 <= i < tree_masks.len() ==> tree_masks[i].bits == flagged(
            level_fan(levels, i).tree_mask,
            i == d - 1 && in_db,
            digit,
        )
    &&& forall|i: int|
        #![trigger hash_masks[i]]
        0 <= i < hash_masks.len() ==> hash_masks[i].bits == flagged(
            level_fan(levels, i).hash_mask,
            i == d - 1 && is_hash,
            digit,
        )
}

/// The entries are the retained branches among `all`, and those that were there before; the former
/// report when the stack is encoded, the latter have reported.
pub open spec fn updates_are(
    updates: Option<PathMap<PendingBranchNode>>,
    stack: Seq<RawRlpNode>,
    inbox: Seq<Option<BranchReport>>,
    reports: Seq<ReportModel>,
    retained: Option<Retained>,
    all: Map<Seq<u8>, BranchModel>,
) -> bool {
    match (updates, retained) {
        (Some(map), Some(kept)) => {
            let now = all.remove_keys(kept.dropped);
            &&& map.wf()
            &&& forall|path: Seq<u8>| #[trigger]
                map@.dom().contains(path) ==> (map@[path].slot matches Some(slot) && slot
                    < reports.len())
            &&& entries_model(map@, reports) == kept.earlier.union_prefer_right(now)
            &&& forall|path: Seq<u8>| #[trigger]
                map@.dom().contains(path) ==> if now.dom().contains(path) {
                    &&& any_slot(stack, map@[path].slot->Some_0)
                    &&& inbox[map@[path].slot->Some_0 as int] is None
                } else {
                    reported(inbox, reports, map@[path].slot->Some_0)
                }
            &&& kept.dropped.subset_of(all.dom())
        },
        (None, None) => true,
        _ => false,
    }
}

/// The nibble in front of position `d`.
pub open spec fn digit_before(path: Seq<u8>, d: int) -> u8 {
    if 0 < d <= path.len() {
        path[d - 1]
    } else {
        0
    }
}

/// Clearing and setting bits that are clear and set already changes nothing.
pub proof fn lemma_flag(mask: u16, state: u16, digit: u8)
    requires
        digit < 16,
        is_subset(mask, state),
        !has_bit(state, digit),
    ensures
        mask & !nibble_bit(digit) == mask,
        nibble_bit(digit) != 0,
        0u16 | nibble_bit(digit) != 0,
{
    assert(mask & !(1u16 << digit) == mask) by (bit_vector)
        requires
            mask & state == mask,
            state & (1u16 << digit) == 0,
    ;
    assert(1u16 << digit != 0) by (bit_vector)
        requires
            digit < 16,
    ;
    assert(0u16 | (1u16 << digit) != 0) by (bit_vector)
        requires
            digit < 16,
    ;
}

/// The entries stay what they are when slots are added and the stack keeps the slots it has.
pub proof fn lemma_updates_kept(
    updates: Option<PathMap<PendingBranchNode>>,
    stack0: Seq<RawRlpNode>,
    stack1: Seq<RawRlpNode>,
    inbox0: Seq<Option<BranchReport>>,
    inbox1: Seq<Option<BranchReport>>,
    reports0: Seq<ReportModel>,
    reports1: Seq<ReportModel>,
    retained: Option<Retained>,
    all: Map<Seq<u8>, BranchModel>,
)
    requires
        updates_are(updates, stack0, inbox0, reports0, retained, all),
        inbox0.len() == reports0.len() <= reports1.len() == inbox1.len(),
        forall|i: int| 0 <= i < reports0.len() ==> #[trigger] reports1[i] == reports0[i],
        forall|i: int| 0 <= i < inbox0.len() ==> #[trigger] inbox1[i] == inbox0[i],
        forall|slot: usize| any_slot(stack0, slot) ==> #[trigger] any_slot(stack1, slot),
    ensures
        updates_are(updates, stack1, inbox1, reports1, retained, all),
{
    if updates is Some && retained is Some {
        let map = updates->Some_0;
        let kept = retained->Some_0;
        let now = all.remove_keys(kept.dropped);
        assert(entries_model(map@, reports1) =~= entries_model(map@, reports0));
        assert forall|path: Seq<u8>| #[trigger]
            map@.dom().contains(path) implies if now.dom().contains(path) {
            any_slot(stack1, map@[path].slot->Some_0)
                && inbox1[map@[path].slot->Some_0 as int] is None
        } else {
            reported(inbox1, reports1, map@[path].slot->Some_0)
        } by {
            if now.dom().contains(path) {
                assert(any_slot(stack0, map@[path].slot->Some_0));
            } else {
                assert(reported(inbox0, reports0, map@[path].slot->Some_0));
            }
        }
    }
}

} // verus!
