//! What the fields of a hash builder hold.
use crate::trie::builder::ParallelHashBuilder;
use crate::trie::builder::model::{
    children_at, hash_masks_off, outline_is, stack_off, state_masks_off, tree_masks_off,
    BuilderModel,
};
use crate::trie::builder::state::{entries_model, entry_model, PendingBranchNode};
use crate::trie::form::NodeForm;
use crate::trie::lemmas::{lemma_fan_empty, lemma_fan_forms, lemma_fan_masks};
use crate::trie::levels::{
    flat, lemma_last_leaves, lemma_level_forms, lemma_level_is, level_fan, level_forms, mask_count,
};
use crate::trie::mask::{bits_below, TrieMask};
use crate::trie::model::Item;
use crate::trie::nibbles::lcp;
use crate::trie::node::{any_mentions, lemma_node_forms, node_forms, BranchReport, RawRlpNode};
use crate::trie::value::HashBuilderValue;
use vstd::prelude::*;

verus! {

/// The bits of the masks.
pub open spec fn mask_bits(masks: Seq<TrieMask>) -> Seq<u16> {
    Seq::new(masks.len(), |i: int| masks[i].bits)
}

/// The fields of a builder.
pub struct Fields {
    pub key: Seq<u8>,
    pub value: HashBuilderValue,
    pub stack: Seq<RawRlpNode>,
    pub state_masks: Seq<TrieMask>,
    pub tree_masks: Seq<TrieMask>,
    pub hash_masks: Seq<TrieMask>,
    pub stored_in_database: bool,
    pub updated_branch_nodes: Option<Map<Seq<u8>, PendingBranchNode>>,
    pub inbox: Seq<Option<BranchReport>>,
}

/// The number of bits that are set in the masks.
pub open spec fn total_bits(masks: Seq<u16>) -> nat
    decreases masks.len(),
{
    if masks.len() == 0 {
        0
    } else {
        total_bits(masks.drop_last()) + bits_below(masks.last(), 16)
    }
}

/// The levels have as many nodes as their masks have bits.
pub(super) proof fn lemma_level_bits(levels: Seq<Seq<Item>>, masks: Seq<u16>, base: Seq<NodeForm>)
    requires
        masks.len() == levels.len(),
        forall|i: int|
            0 <= i < masks.len() ==> #[trigger] masks[i] == level_fan(levels, i).state_mask,
    ensures
        level_forms(levels, base).len() == base.len() + total_bits(masks),
    decreases levels.len(),
{
    if levels.len() > 0 {
        let rest = levels.drop_last();
        let i = levels.len() - 1;
        assert forall|k: int| 0 <= k < i implies #[trigger] masks.drop_last()[k] == level_fan(
            rest,
            k,
        ).state_mask by {
            assert(masks[k] == level_fan(levels, k).state_mask);
        }
        lemma_level_bits(rest, masks.drop_last(), base);
        lemma_fan_masks(levels[i], i as nat, 16);
        lemma_fan_forms(levels[i], i as nat, 16, level_forms(rest, base));
        assert(masks[i] == level_fan(levels, i).state_mask);
    }
}

impl Fields {
    /// The fields are those of a builder that has been given what `model` says.
    pub open spec fn hold(self, model: BuilderModel) -> bool {
        &&& self.key == model.key()
        &&& self.value.model(self.stored_in_database) == model.value
        &&& self.stored_in_database == model.stored_in_database
        &&& node_forms(self.stack) == model.stack()
        &&& mask_bits(self.state_masks) == model.state_masks()
        &&& mask_bits(self.tree_masks) == model.tree_masks()
        &&& mask_bits(self.hash_masks) == model.hash_masks()
        &&& forall|slot: usize| #[trigger]
            any_mentions(self.stack, slot) ==> slot < self.inbox.len()
        &&& self.updated_branch_nodes is Some <==> model.retained is Some
        &&& self.updated_branch_nodes matches Some(nodes) ==> {
            &&& nodes.dom() == model.updates().dom()
            &&& forall|path: Seq<u8>| #[trigger]
                nodes.dom().contains(path) ==> outline_is(
                    nodes[path].node,
                    model.updates()[path],
                )
        }
    }

    /// No branch came onto the stack that has a slot, or holds one that has, but those that were
    /// there; and there are no new reports.
    pub open spec fn adds_no_slot(self, before: Fields) -> bool {
        &&& self.inbox == before.inbox
        &&& forall|slot: usize| #[trigger]
            any_mentions(self.stack, slot) ==> any_mentions(before.stack, slot)
    }
}

impl ParallelHashBuilder {
    /// What is folded says what is on the stack and in the masks.
    pub(super) proof fn lemma_folded(&self, path: Seq<u8>)
        requires
            self.holds(path),
        ensures
            ({
                let items = flat(self.history@.levels);
                &&& node_forms(self.stack@) == stack_off(self.history@.words, items, path)
                &&& mask_bits(self.state_masks@) == state_masks_off(items, path)
                &&& mask_bits(self.tree_masks@) == tree_masks_off(items, path)
                &&& mask_bits(self.hash_masks@) == hash_masks_off(items, path)
            }),
    {
        let h = self.history@;
        let levels = h.levels;
        let items = flat(levels);
        lemma_level_forms(levels, path, path.len(), self.base());
        assert(levels.take(levels.len() as int) =~= levels);
        lemma_node_forms(self.stack@);
        assert(node_forms(self.stack@) =~= stack_off(h.words, items, path));
        if levels.len() > 0 {
            lemma_last_leaves(levels, path);
        }
        assert forall|i: int| 0 <= i implies #[trigger] children_at(items, path, i) == level_fan(
            levels,
            i,
        ) by {
            lemma_level_is(levels, path, i);
            if i >= levels.len() {
                lemma_fan_empty(i as nat, 16);
            }
        }
        assert(mask_bits(self.state_masks@) =~= state_masks_off(items, path));
        assert(mask_bits(self.tree_masks@) =~= tree_masks_off(items, path));
        assert(mask_bits(self.hash_masks@) =~= hash_masks_off(items, path));
    }

    /// What a builder has been given says what its fields hold.
    pub proof fn law_fields(&self)
        requires
            self.wf(),
        ensures
            self.fields().hold(self@),
    {
        self.lemma_complete();
        let model = self@;
        let h = self.history@;
        assert(model.folded() =~= flat(h.levels));
        assert(model.key() =~= self.key@);
        self.lemma_folded(self.key@);
        if self.updated_branch_nodes is Some {
            let map = self.updated_branch_nodes->Some_0;
            let entries = entries_model(map@, h.reports);
            assert(entries == model.updates());
            assert(map@.dom() =~= entries.dom());
            assert forall|p: Seq<u8>| #[trigger] map@.dom().contains(p) implies outline_is(
                map@[p].node,
                model.updates()[p],
            ) by {
                assert(entries[p] == entry_model(map@[p], h.reports));
            }
        }
    }

    /// There is one state mask for each position of the last key up to the one where the item
    /// before it leaves; at least as many tree masks, and as many hash masks as those; and on the
    /// stack, above the hashes that were added with an empty key, one node for each bit of the
    /// state masks.
    pub proof fn law_counts(&self)
        requires
            self.wf(),
        ensures
            self.fields().state_masks.len() == (if self@.items.len() < 2 {
                0
            } else {
                lcp(self@.items[self@.items.len() - 2].key, self@.key()) + 1
            }),
            self.fields().tree_masks.len() == mask_count(self@.folded(), self@.key()),
            self.fields().hash_masks.len() == self.fields().tree_masks.len(),
            self.fields().tree_masks.len() >= self.fields().state_masks.len(),
            self.fields().stack.len() == self@.words.len() + total_bits(
                mask_bits(self.fields().state_masks),
            ),
    {
        self.law_fields();
        assert(mask_bits(self.fields().state_masks).len() == self.fields().state_masks.len());
        assert(mask_bits(self.fields().tree_masks).len() == self.fields().tree_masks.len());
        assert(mask_bits(self.fields().hash_masks).len() == self.fields().hash_masks.len());
        lemma_level_bits(self.history@.levels, mask_bits(self.state_masks@), self.base());
    }
}

} // verus!
