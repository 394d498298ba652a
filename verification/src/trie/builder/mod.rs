//! The streaming hash builder.
pub mod fields;
pub mod model;
pub mod state;
mod laws;
mod split;
mod steps;
mod update;

use crate::trie::builder::fields::Fields;
use crate::trie::builder::model::{no_input, word_forms, BuilderModel, Retained};
use crate::trie::builder::state::{
    any_slot, db_masks_are, digit_before, entries_model, full_stack_is, lemma_updates_kept,
    state_masks_are, updates_are, History, PendingBranchNode,
};
use crate::trie::form::{form_rlp, is_full, is_long, NodeForm};
use crate::trie::lemmas::{all_long, all_start_with, lemma_form_rlp, lemma_trie_is_long};
use crate::trie::levels::{
    flat, lemma_level_branches, level_branches, level_forms, levels_off, mask_count,
};
use crate::trie::mask::TrieMask;
use crate::trie::model::{
    shared_len, subtrie, trie_branches, trie_form, trie_root, BranchModel, Item, ItemValue,
};
use crate::trie::nibbles::Nibbles;
use crate::trie::node::{
    any_mentions, has_slot, node_form, node_ok, release, reported, BranchReport, RawRlpNode,
};
use crate::trie::proofs::{all_follow, law_trie_of_one_item, lemma_follow_push};
use crate::trie::rlp::{
    all_hashes, hash_of, hex_prefix, reference, reference_hash, rlp_list, rlp_string,
    EMPTY_ROOT_HASH,
};
use crate::trie::updates::PathMap;
use crate::trie::value::{HashBuilderValue, HashBuilderValueRef};
use vstd::prelude::*;

verus! {

/// A component used to construct the root hash of the trie.
///
/// Items are added in the order of their keys. The nodes that no later item can change stay on a
/// stack, not encoded; taking the root encodes and hashes them.
pub struct ParallelHashBuilder {
    /// The key of the last item, empty where there is none.
    pub key: Nibbles,
    /// The value of the last item.
    pub value: HashBuilderValue,
    /// The finished nodes.
    pub stack: Vec<RawRlpNode>,
    /// For each position of the key, the nibbles to which earlier keys leave there.
    pub state_masks: Vec<TrieMask>,
    /// For each position of the key, those of the nibbles that lead to a branch in the database.
    pub tree_masks: Vec<TrieMask>,
    /// For each position of the key, those of the nibbles whose child is a branch or a hash.
    pub hash_masks: Vec<TrieMask>,
    /// Whether the subtree of the last hash that was added is stored in the database.
    pub stored_in_database: bool,
    /// The branch nodes for the database, where they are retained.
    pub updated_branch_nodes: Option<PathMap<PendingBranchNode>>,
    /// The reports of the branches, by slot.
    pub inbox: Vec<Option<BranchReport>>,
    history: Ghost<History>,
}

impl ParallelHashBuilder {
    /// The item that was added last.
    spec fn last_item(&self) -> Item {
        Item { key: self.key@, value: self.value.model(self.stored_in_database) }
    }

    /// What is on the stack below the nodes of the items.
    spec fn base(&self) -> Seq<NodeForm> {
        word_forms(self.history@.words)
    }

    /// The state is that of the items in the levels.
    spec fn levels_are(&self, levels: Seq<Seq<Item>>) -> bool {
        let h = self.history@;
        &&& state_masks_are(self.state_masks@, levels)
        &&& db_masks_are(self.tree_masks@, self.hash_masks@, levels, 0, 0, false, false)
        &&& self.tree_masks@.len() >= levels.len()
        &&& full_stack_is(self.stack@, level_forms(levels, self.base()), h.reports)
        &&& self.inbox@.len() == h.reports.len()
        &&& updates_are(
            self.updated_branch_nodes,
            self.stack@,
            self.inbox@,
            h.reports,
            h.retained,
            level_branches(levels),
        )
    }

    /// The state is that of the items so far but the last, seen from `path`.
    spec fn holds(&self, path: Seq<u8>) -> bool {
        let levels = self.history@.levels;
        &&& levels_off(levels, path)
        &&& levels.len() > 0 ==> levels.last().len() > 0
        &&& self.levels_are(levels)
        &&& self.tree_masks@.len() == mask_count(flat(levels), path)
    }

    /// The state is that of the items in the levels and of the trie `g` at the end of `path`. The
    /// node of that trie is on the stack if `on_stack` holds; otherwise it is the last item.
    spec fn hangs(
        &self,
        path: Seq<u8>,
        levels: Seq<Seq<Item>>,
        g: Seq<Item>,
        on_stack: bool,
    ) -> bool {
        let h = self.history@;
        let top = subtrie(g, path.len());
        &&& levels_off(levels, path)
        &&& levels.len() > 0 ==> levels.last().len() > 0
        &&& state_masks_are(self.state_masks@, levels)
        &&& self.tree_masks@.len() >= levels.len()
        &&& self.inbox@.len() == h.reports.len()
        &&& g.len() > 0
        &&& all_start_with(g, path)
        &&& updates_are(
            self.updated_branch_nodes,
            self.stack@,
            self.inbox@,
            h.reports,
            h.retained,
            level_branches(levels).union_prefer_right(top.stored),
        )
        &&& if on_stack {
            &&& g.len() > 1
            &&& shared_len(g) == path.len()
            &&& full_stack_is(
                self.stack@,
                level_forms(levels, self.base()).push(
                    trie_form(g, path.len(), level_forms(levels, self.base())),
                ),
                h.reports,
            )
            &&& db_masks_are(
                self.tree_masks@,
                self.hash_masks@,
                levels,
                path.len() as int,
                digit_before(path, path.len() as int),
                top.is_hash,
                top.in_db,
            )
            &&& self.tree_masks@.len() == path.len()
        } else {
            &&& g == seq![self.last_item()]
            &&& path == self.key@
            &&& full_stack_is(self.stack@, level_forms(levels, self.base()), h.reports)
            &&& db_masks_are(self.tree_masks@, self.hash_masks@, levels, 0, 0, false, false)
        }
    }

    /// Whether the state is one that the operations lead to.
    pub closed spec fn wf(&self) -> bool {
        self.key.wf() && self.holds(self.key@) && all_follow(self@.items)
    }

    /// The fields.
    pub closed spec fn fields(&self) -> Fields {
        Fields {
            key: self.key@,
            value: self.value,
            stack: self.stack@,
            state_masks: self.state_masks@,
            tree_masks: self.tree_masks@,
            hash_masks: self.hash_masks@,
            stored_in_database: self.stored_in_database,
            updated_branch_nodes: match self.updated_branch_nodes {
                Some(map) => Some(map@),
                None => None,
            },
            inbox: self.inbox@,
        }
    }
}

impl View for ParallelHashBuilder {
    type V = BuilderModel;

    closed spec fn view(&self) -> BuilderModel {
        let h = self.history@;
        BuilderModel {
            words: h.words,
            items: if self.key@.len() == 0 {
                flat(h.levels)
            } else {
                flat(h.levels).push(self.last_item())
            },
            retained: h.retained,
            value: self.value.model(self.stored_in_database),
            stored_in_database: self.stored_in_database,
        }
    }
}

impl Default for ParallelHashBuilder {
    fn default() -> (r: Self)
        ensures
            r.wf(),
            r@ == no_input(),
            r.fields().hold(no_input()),
    {
        let r = ParallelHashBuilder {
            key: Nibbles::default(),
            value: HashBuilderValue::default(),
            stack: Vec::new(),
            state_masks: Vec::new(),
            tree_masks: Vec::new(),
            hash_masks: Vec::new(),
            stored_in_database: false,
            updated_branch_nodes: None,
            inbox: Vec::new(),
            history: Ghost(
                History {
                    words: Seq::empty(),
                    levels: Seq::empty(),
                    reports: Seq::empty(),
                    retained: None,
                },
            ),
        };
        proof {
            assert(r.value->Bytes_0@ =~= Seq::empty());
            r.law_fields();
        }
        r
    }
}

impl ParallelHashBuilder {
    /// The branches of the levels are those that no later item can change.
    proof fn lemma_complete(&self)
        requires
            self.wf(),
        ensures
            self@.complete() == level_branches(self.history@.levels),
            self.key@.len() == 0 <==> self@.items.len() == 0,
            self.key@.len() == 0 ==> self.history@.levels.len() == 0,
            self.key@.len() > 0 ==> self@.items.last().key == self.key@,
    {
        let levels = self.history@.levels;
        if self.key@.len() > 0 {
            assert(self@.items.drop_last() =~= flat(levels));
            lemma_level_branches(levels, self.key@, self.key@.len());
            assert(levels.take(levels.len() as int) =~= levels);
        }
    }

    /// Enables the builder to retain updated branch nodes. Those that are complete already are
    /// not retained.
    ///
    /// Call [`Self::split`] to get them.
    pub fn with_updates(self, retain_updates: bool) -> (r: Self)
        requires
            self.wf(),
        ensures
            r.wf(),
            r@ == (if retain_updates {
                self@.retaining()
            } else {
                self@
            }),
            r@.words == self@.words,
            r@.items == self@.items,
            r@.value == self@.value,
            r@.stored_in_database == self@.stored_in_database,
            retain_updates ==> r@.retained == Some(
                Retained { earlier: Map::empty(), dropped: self@.complete().dom() },
            ),
            !retain_updates ==> r@.retained == self@.retained,
            r.fields() == (if retain_updates {
                Fields { updated_branch_nodes: Some(Map::empty()), ..self.fields() }
            } else {
                self.fields()
            }),
    {
        let mut builder = self;
        builder.set_updates(retain_updates);
        builder
    }

    /// Enables the builder to retain updated branch nodes, from now on: those that are complete
    /// already are not retained.
    ///
    /// Call [`Self::split`] to get them.
    pub fn set_updates(&mut self, retain_updates: bool)
        requires
            old(self).wf(),
        ensures
            final(self).wf(),
            final(self)@ == (if retain_updates {
                old(self)@.retaining()
            } else {
                old(self)@
            }),
            final(self)@.words == old(self)@.words,
            final(self)@.items == old(self)@.items,
            final(self)@.value == old(self)@.value,
            final(self)@.stored_in_database == old(self)@.stored_in_database,
            retain_updates ==> final(self)@.retained == Some(
                Retained { earlier: Map::empty(), dropped: old(self)@.complete().dom() },
            ),
            !retain_updates ==> final(self)@.retained == old(self)@.retained,
            final(self).fields() == (if retain_updates {
                Fields { updated_branch_nodes: Some(Map::empty()), ..old(self).fields() }
            } else {
                old(self).fields()
            }),
    {
        if retain_updates {
            proof {
                self.lemma_complete();
            }
            let ghost complete = self@.complete();
            let map: PathMap<PendingBranchNode> = PathMap::new();
            proof {
                let now = complete.remove_keys(complete.dom());
                assert(now =~= Map::empty());
                assert(entries_model(map@, self.history@.reports) =~= Map::<
                    Seq<u8>,
                    BranchModel,
                >::empty().union_prefer_right(now));
            }
            self.updated_branch_nodes = Some(map);
            self.history = Ghost(
                History {
                    words: self.history@.words,
                    levels: self.history@.levels,
                    reports: self.history@.reports,
                    retained: Some(Retained { earlier: Map::empty(), dropped: complete.dom() }),
                },
            );
        }
    }

    /// The number of branch nodes that are retained; `0` where none are to be.
    pub fn updates_len(&self) -> (r: usize)
        requires
            self.wf(),
        ensures
            self@.updates().dom().finite(),
            r == self@.updates().dom().len(),
    {
        proof {
            self.lemma_complete();
        }
        match &self.updated_branch_nodes {
            Some(map) => {
                assert(self@.updates().dom() =~= map@.dom()) by {
                    assert(entries_model(map@, self.history@.reports).dom() =~= map@.dom());
                }
                map.len()
            },
            None => 0,
        }
    }

    /// Adds a new leaf and its value.
    pub fn add_leaf(&mut self, key: Nibbles, value: &[u8])
        requires
            old(self).wf(),
            key.wf(),
            old(self)@.admits(key@),
        ensures
            final(self).wf(),
            final(self)@ == old(self)@.with_item(
                Item { key: key@, value: ItemValue::Leaf(value@) },
            ),
            final(self)@.items == old(self)@.items.push(
                Item { key: key@, value: ItemValue::Leaf(value@) },
            ),
            final(self)@.words == old(self)@.words,
            final(self)@.retained == old(self)@.retained,
            final(self)@.value == ItemValue::Leaf(value@),
            final(self)@.stored_in_database == old(self)@.stored_in_database,
            final(self).fields().hold(final(self)@),
            old(self)@.retained is None ==> final(self).fields().adds_no_slot(old(self).fields()),
    {
        self.add_leaf_unchecked(key, value);
    }

    /// Adds a new leaf and its value. The keys have to come in their order.
    pub fn add_leaf_unchecked(&mut self, key: Nibbles, value: &[u8])
        requires
            old(self).wf(),
            key.wf(),
            old(self)@.admits(key@),
        ensures
            final(self).wf(),
            final(self)@ == old(self)@.with_item(
                Item { key: key@, value: ItemValue::Leaf(value@) },
            ),
            final(self)@.items == old(self)@.items.push(
                Item { key: key@, value: ItemValue::Leaf(value@) },
            ),
            final(self)@.words == old(self)@.words,
            final(self)@.retained == old(self)@.retained,
            final(self)@.value == ItemValue::Leaf(value@),
            final(self)@.stored_in_database == old(self)@.stored_in_database,
            final(self).fields().hold(final(self)@),
            old(self)@.retained is None ==> final(self).fields().adds_no_slot(old(self).fields()),
    {
        proof {
            self.lemma_complete();
        }
        if !self.key.is_empty() {
            self.update(&key);
        }
        let stored_in_database = self.stored_in_database;
        proof {
            lemma_follow_push(
                old(self)@.items,
                Item { key: key@, value: ItemValue::Leaf(value@) },
            );
        }
        self.set_key_value(key, HashBuilderValueRef::Bytes(value), stored_in_database);
        proof {
            self.law_fields();
        }
    }

    /// Adds a subtree by its hash, and whether it is stored in the database. With an empty key the
    /// hash is that of a whole trie, which only a builder without items takes.
    pub fn add_branch(&mut self, key: Nibbles, value: [u8; 32], stored_in_database: bool)
        requires
            old(self).wf(),
            key.wf(),
            old(self)@.admits(key@) || (key@.len() == 0 && old(self)@.items.len() == 0),
        ensures
            final(self).wf(),
            key@.len() > 0 ==> final(self)@ == old(self)@.with_item(
                Item { key: key@, value: ItemValue::Hash(value@, stored_in_database) },
            ),
            key@.len() == 0 ==> final(self)@ == old(self)@.with_word(value@, stored_in_database),
            key@.len() > 0 ==> final(self)@.words == old(self)@.words && final(self)@.items == old(
                self,
            )@.items.push(
                Item { key: key@, value: ItemValue::Hash(value@, stored_in_database) },
            ),
            key@.len() == 0 ==> final(self)@.words == old(self)@.words.push(value@)
                && final(self)@.items == old(self)@.items,
            final(self)@.retained == old(self)@.retained,
            final(self)@.value == ItemValue::Hash(value@, stored_in_database),
            final(self)@.stored_in_database == stored_in_database,
            final(self).fields().hold(final(self)@),
            old(self)@.retained is None ==> final(self).fields().adds_no_slot(old(self).fields()),
    {
        proof {
            self.lemma_complete();
        }
        if !self.key.is_empty() {
            self.update(&key);
        } else if key.is_empty() {
            self.push_word(value);
        }
        proof {
            if key@.len() > 0 {
                lemma_follow_push(
                    old(self)@.items,
                    Item { key: key@, value: ItemValue::Hash(value@, stored_in_database) },
                );
            }
        }
        self.set_key_value(key, HashBuilderValueRef::Hash(&value), stored_in_database);
        proof {
            self.law_fields();
        }
    }

    /// Puts a word below everything that comes.
    fn push_word(&mut self, word: [u8; 32])
        requires
            old(self).wf(),
            old(self).key@.len() == 0,
        ensures
            final(self).holds(final(self).key@),
            final(self).stack@ == old(self).stack@.push(RawRlpNode::Word(word)),
            final(self).inbox == old(self).inbox,
            final(self).updated_branch_nodes == old(self).updated_branch_nodes,
            final(self).key == old(self).key,
            final(self).history@.words == old(self).history@.words.push(word@),
            final(self).history@.levels == old(self).history@.levels,
            final(self).history@.retained == old(self).history@.retained,
    {
        let ghost h = self.history@;
        let ghost stack0 = self.stack@;
        self.stack.push(RawRlpNode::Word(word));
        self.history = Ghost(
            History {
                words: h.words.push(word@),
                levels: h.levels,
                reports: h.reports,
                retained: h.retained,
            },
        );
        proof {
            let stack1 = self.stack@;
            assert forall|slot: usize| any_slot(stack0, slot) implies #[trigger] any_slot(
                stack1,
                slot,
            ) by {
                let i = choose|i: int|
                    0 <= i < stack0.len() && has_slot(#[trigger] stack0[i], slot);
                assert(has_slot(stack1[i], slot));
            }
            lemma_updates_kept(
                self.updated_branch_nodes,
                stack0,
                stack1,
                self.inbox@,
                self.inbox@,
                h.reports,
                h.reports,
                h.retained,
                level_branches(h.levels),
            );
        }
    }

    /// Makes the given item the last one.
    fn set_key_value(&mut self, key: Nibbles, value: HashBuilderValueRef<'_>, stored: bool)
        requires
            key.wf(),
            old(self).holds(key@),
            all_follow(
                if key@.len() == 0 {
                    flat(old(self).history@.levels)
                } else {
                    flat(old(self).history@.levels).push(
                        Item { key: key@, value: value.model(stored) },
                    )
                },
            ),
        ensures
            final(self).wf(),
            final(self).key == key,
            final(self).stack == old(self).stack,
            final(self).inbox == old(self).inbox,
            final(self).updated_branch_nodes == old(self).updated_branch_nodes,
            final(self).history == old(self).history,
            final(self).value.model(stored) == value.model(stored),
            final(self).stored_in_database == stored,
    {
        self.key = key;
        self.value.set_from_ref(value);
        self.stored_in_database = stored;
    }

    /// Takes the node on top of the stack and returns its hash; where there is none, that of the
    /// empty trie. The branches of the node report.
    fn current_root(&mut self) -> (r: [u8; 32])
        requires
            old(self).inbox@.len() == old(self).history@.reports.len(),
            old(self).stack@.len() > 0 ==> node_ok(
                old(self).stack@.last(),
                old(self).history@.reports,
            ),
        ensures
            old(self).stack@.len() == 0 ==> {
                &&& r == EMPTY_ROOT_HASH
                &&& final(self).stack@ == old(self).stack@
                &&& final(self).inbox@ == old(self).inbox@
            },
            old(self).stack@.len() > 0 ==> {
                &&& r@ == reference_hash(form_rlp(node_form(old(self).stack@.last())))
                &&& final(self).stack@ == old(self).stack@.drop_last()
                &&& final(self).inbox@.len() == old(self).inbox@.len()
                &&& forall|slot: usize| #[trigger]
                    has_slot(old(self).stack@.last(), slot) ==> reported(
                        final(self).inbox@,
                        old(self).history@.reports,
                        slot,
                    )
                &&& forall|slot: usize|
                    slot < old(self).inbox@.len() && !has_slot(old(self).stack@.last(), slot)
                        ==> #[trigger] final(self).inbox@[slot as int] == old(
                        self,
                    ).inbox@[slot as int]
                &&& is_long(node_form(old(self).stack@.last())) && is_full(
                    node_form(old(self).stack@.last()),
                ) ==> forall|slot: usize| #[trigger]
                    has_slot(old(self).stack@.last(), slot) ==> all_hashes(
                        old(self).history@.reports[slot as int].hashed,
                    )
            },
            final(self).key == old(self).key,
            final(self).value == old(self).value,
            final(self).state_masks == old(self).state_masks,
            final(self).tree_masks == old(self).tree_masks,
            final(self).hash_masks == old(self).hash_masks,
            final(self).stored_in_database == old(self).stored_in_database,
            final(self).updated_branch_nodes == old(self).updated_branch_nodes,
            final(self).history == old(self).history,
    {
        match self.stack.pop() {
            Some(node) => {
                let ghost reports = self.history@.reports;
                let rlp = node.rlp(&mut self.inbox, Ghost(reports));
                release(node);
                hash_of(&rlp)
            },
            None => EMPTY_ROOT_HASH,
        }
    }

    /// Returns the current root hash, and clears what it was taken of: the items, or else the last
    /// hash that was added with an empty key.
    pub fn root(&mut self) -> (r: [u8; 32])
        requires
            old(self).wf(),
        ensures
            r@ == old(self)@.root(),
            old(self)@.items.len() > 0 ==> {
                &&& r@ == trie_root(old(self)@.items)
                &&& final(self)@.items.len() == 0
                &&& final(self)@.words == old(self)@.words
            },
            old(self)@.items.len() == 1 ==> match old(self)@.items[0].value {
                ItemValue::Leaf(value) => r@ == reference_hash(
                    reference(
                        rlp_list(
                            rlp_string(hex_prefix(old(self)@.items[0].key, true)) + rlp_string(
                                value,
                            ),
                        ),
                    ),
                ),
                ItemValue::Hash(hash, _) => old(self)@.items[0].key.len() > 0 ==> r@
                    == reference_hash(
                    reference(
                        rlp_list(
                            rlp_string(hex_prefix(old(self)@.items[0].key, false)) + (
                            seq![0xa0u8] + hash),
                        ),
                    ),
                ),
            },
            old(self)@.items.len() == 0 && old(self)@.words.len() > 0 ==> {
                &&& r@ == old(self)@.words.last()
                &&& final(self)@.words == old(self)@.words.drop_last()
                &&& final(self)@.items == old(self)@.items
            },
            old(self)@.items.len() == 0 && old(self)@.words.len() == 0 ==> {
                &&& r == EMPTY_ROOT_HASH
                &&& final(self)@.words == old(self)@.words
                &&& final(self)@.items == old(self)@.items
            },
            final(self)@.retained is Some <==> old(self)@.retained is Some,
            old(self)@.retained is Some && old(self)@.items.len() > 0 ==> {
                let kept = old(self)@.retained->Some_0;
                let fresh = trie_branches(old(self)@.items);
                forall|path: Seq<u8>|
                    (#[trigger] final(self)@.updates().dom().contains(path)
                        <==> kept.earlier.dom().contains(path) || (fresh.dom().contains(path)
                        && !kept.dropped.contains(path))) && (fresh.dom().contains(path)
                        && !kept.dropped.contains(path) ==> final(self)@.updates()[path]
                        == fresh[path])
            },
            final(self).wf(),
            final(self)@ == old(self)@.taken(),
            final(self).fields().hold(final(self)@),
            old(self)@.retained is None ==> {
                &&& final(self).fields().inbox.len() == old(self).fields().inbox.len()
                &&& forall|slot: usize| #[trigger]
                    any_mentions(final(self).fields().stack, slot) ==> any_mentions(
                        old(self).fields().stack,
                        slot,
                    )
            },
            all_long(old(self)@.items) && old(self)@.earlier_hashed() ==> final(self)@.settled(),
    {
        let ghost m = self@;
        proof {
            self.lemma_complete();
            if m.items.len() == 1 {
                assert(m.items =~= seq![m.items[0]]);
                match m.items[0].value {
                    ItemValue::Leaf(value) => law_trie_of_one_item(
                        m.items[0].key,
                        value,
                        Seq::empty(),
                        false,
                    ),
                    ItemValue::Hash(hash, in_db) => law_trie_of_one_item(
                        m.items[0].key,
                        Seq::empty(),
                        hash,
                        in_db,
                    ),
                }
            }
        }
        let closing: bool = !self.key.is_empty();
        if closing {
            self.update(&Nibbles::default());
            self.key.clear();
            self.value.clear();
        }
        assert(closing ==> self.value->Bytes_0@ =~= Seq::empty());
        let ghost stack0 = self.stack@;
        let ghost h = self.history@;
        let r = self.current_root();
        proof {
            if closing {
                lemma_form_rlp(m.items, 0, word_forms(m.words));
            } else if m.words.len() > 0 {
                assert(form_rlp(NodeForm::Word(m.words.last())).subrange(1, 33)
                    =~= m.words.last());
            }
            if closing && h.retained is Some {
                let map = self.updated_branch_nodes->Some_0;
                let kept = h.retained->Some_0;
                let now = trie_branches(m.items).remove_keys(kept.dropped);
                assert forall|path: Seq<u8>| #[trigger] map@.dom().contains(path) implies reported(
                    self.inbox@,
                    h.reports,
                    map@[path].slot->Some_0,
                ) by {
                    let slot = map@[path].slot->Some_0;
                    if now.dom().contains(path) {
                        let i = choose|i: int|
                            0 <= i < stack0.len() && has_slot(#[trigger] stack0[i], slot);
                        assert(stack0[i] == stack0.last());
                    }
                }
                let earlier = kept.earlier.union_prefer_right(now);
                assert(earlier.union_prefer_right(
                    Map::<Seq<u8>, BranchModel>::empty().remove_keys(Set::empty()),
                ) =~= earlier);
            }
        }
        self.history = Ghost(
            History {
                words: m.taken().words,
                levels: Seq::empty(),
                reports: h.reports,
                retained: m.taken().retained,
            },
        );
        proof {
            self.law_fields();
            if all_long(m.items) && m.earlier_hashed() {
                assert(self@.pending() =~= Map::<Seq<u8>, BranchModel>::empty());
                assert forall|path: Seq<u8>| #[trigger]
                    self@.updates().dom().contains(path) implies all_hashes(
                    self@.updates()[path].hashed,
                ) by {
                    let kept = h.retained->Some_0;
                    let map = self.updated_branch_nodes->Some_0;
                    let now = trie_branches(m.items).remove_keys(kept.dropped);
                    if closing && now.dom().contains(path) {
                        lemma_trie_is_long(m.items, 0, word_forms(m.words));
                        assert(entries_model(map@, h.reports)[path] == now[path]);
                        assert(map@.dom().contains(path));
                        let slot = map@[path].slot->Some_0;
                        let i = choose|i: int|
                            0 <= i < stack0.len() && has_slot(#[trigger] stack0[i], slot);
                        assert(stack0[i] == stack0.last());
                        assert(has_slot(stack0.last(), slot));
                    } else {
                        assert(kept.earlier.dom().contains(path));
                    }
                }
            }
        }
        r
    }

    /// Whether an item with the given key can be added.
    pub fn admits(&self, key: &Nibbles) -> (r: bool)
        requires
            self.wf(),
        ensures
            r == self@.admits(key@),
    {
        proof {
            self.lemma_complete();
        }
        if self.key.is_empty() {
            !key.is_empty()
        } else {
            key.follows(&self.key)
        }
    }
}

} // verus!
