//! What a hash builder has been given, and what it gives back.
use crate::trie::form::NodeForm;
use crate::trie::levels::{branches_off, forms_off, leaving_at, mask_count};
use crate::trie::model::{fan, trie_branches, trie_root, BranchModel, Fan, Item, ItemValue};
use crate::trie::nibbles::{follows, lcp};
use crate::trie::rlp::{all_hashes, hashes_of, word_views, EMPTY_ROOT_HASH};
use crate::trie::updates::BranchNodeCompact;
use vstd::prelude::*;

verus! {

/// The branch nodes that a builder has retained.
pub struct Retained {
    /// Those that were there when the first item came in.
    pub earlier: Map<Seq<u8>, BranchModel>,
    /// The paths of the branches that were complete before retaining began.
    pub dropped: Set<Seq<u8>>,
}

/// What a builder has been given.
pub struct BuilderModel {
    /// The hashes that were added with an empty key.
    pub words: Seq<Seq<u8>>,
    /// The items since the last root was taken.
    pub items: Seq<Item>,
    /// What is retained, where branch nodes are.
    pub retained: Option<Retained>,
    /// The value that was added last; no bytes once the root of items was taken.
    pub value: ItemValue,
    /// What was said last of a hash: whether its subtree is stored in the database.
    pub stored_in_database: bool,
}

/// The nodes of the hashes.
pub open spec fn word_forms(words: Seq<Seq<u8>>) -> Seq<NodeForm> {
    Seq::new(words.len(), |i: int| NodeForm::Word(words[i]))
}

/// The nodes on the stack when the items are folded and a key `path` comes next: the hashes that
/// were added with an empty key, and above them the tops of the tries that leave `path`.
pub open spec fn stack_off(words: Seq<Seq<u8>>, items: Seq<Item>, path: Seq<u8>) -> Seq<NodeForm> {
    forms_off(items, path, path.len(), word_forms(words))
}

/// The children that the items have at position `i` of `path`.
pub open spec fn children_at(items: Seq<Item>, path: Seq<u8>, i: int) -> Fan {
    fan(leaving_at(items, path, i as nat), i as nat, 16)
}

/// The masks of the children, for each position up to the one where the last item leaves `path`.
pub open spec fn state_masks_off(items: Seq<Item>, path: Seq<u8>) -> Seq<u16> {
    let n = if items.len() == 0 {
        0
    } else {
        lcp(items.last().key, path) + 1
    };
    Seq::new(n, |i: int| children_at(items, path, i).state_mask)
}

/// The masks of the children that lead to a branch in the database.
pub open spec fn tree_masks_off(items: Seq<Item>, path: Seq<u8>) -> Seq<u16> {
    Seq::new(mask_count(items, path), |i: int| children_at(items, path, i).tree_mask)
}

/// The masks of the children that are a branch, or a hash.
pub open spec fn hash_masks_off(items: Seq<Item>, path: Seq<u8>) -> Seq<u16> {
    Seq::new(mask_count(items, path), |i: int| children_at(items, path, i).hash_mask)
}

/// The builder that was given nothing.
pub open spec fn no_input() -> BuilderModel {
    BuilderModel {
        words: Seq::empty(),
        items: Seq::empty(),
        retained: None,
        value: ItemValue::Leaf(Seq::empty()),
        stored_in_database: false,
    }
}

impl BuilderModel {
    /// The key of the last item, empty where there is none.
    pub open spec fn key(self) -> Seq<u8> {
        if self.items.len() == 0 {
            Seq::empty()
        } else {
            self.items.last().key
        }
    }

    /// The items that are folded into the trie: all but the last.
    pub open spec fn folded(self) -> Seq<Item> {
        if self.items.len() == 0 {
            Seq::empty()
        } else {
            self.items.drop_last()
        }
    }

    /// The nodes on the stack.
    pub open spec fn stack(self) -> Seq<NodeForm> {
        stack_off(self.words, self.folded(), self.key())
    }

    /// The state masks.
    pub open spec fn state_masks(self) -> Seq<u16> {
        state_masks_off(self.folded(), self.key())
    }

    /// The tree masks.
    pub open spec fn tree_masks(self) -> Seq<u16> {
        tree_masks_off(self.folded(), self.key())
    }

    /// The hash masks.
    pub open spec fn hash_masks(self) -> Seq<u16> {
        hash_masks_off(self.folded(), self.key())
    }

    /// The branches of the trie so far that no later item can change: those of the tries that
    /// leave the path of the last key. Only those kept in the database are listed.
    pub open spec fn complete(self) -> Map<Seq<u8>, BranchModel> {
        if self.items.len() == 0 {
            Map::empty()
        } else {
            let key = self.items.last().key;
            branches_off(self.items.drop_last(), key, key.len())
        }
    }

    /// The retained branches that have not been encoded: those of the items since the last root.
    pub open spec fn pending(self) -> Map<Seq<u8>, BranchModel> {
        match self.retained {
            Some(kept) => self.complete().remove_keys(kept.dropped),
            None => Map::empty(),
        }
    }

    /// The retained branches.
    pub open spec fn updates(self) -> Map<Seq<u8>, BranchModel> {
        match self.retained {
            Some(kept) => kept.earlier.union_prefer_right(self.pending()),
            None => Map::empty(),
        }
    }

    /// Whether the hashes of all retained branches are known: the root was taken since the last
    /// item, and every child of a hash mask is referred to by its hash.
    pub open spec fn settled(self) -> bool {
        &&& self.pending() == Map::<Seq<u8>, BranchModel>::empty()
        &&& forall|path: Seq<u8>| #[trigger]
            self.updates().dom().contains(path) ==> all_hashes(self.updates()[path].hashed)
    }

    /// Whether the branches that were there when the first item came in have only children that
    /// are referred to by their hashes in their hash masks.
    pub open spec fn earlier_hashed(self) -> bool {
        self.retained matches Some(kept) ==> forall|path: Seq<u8>| #[trigger]
            kept.earlier.dom().contains(path) ==> all_hashes(kept.earlier[path].hashed)
    }

    /// Whether an item with the given key can be added: it comes after the keys of the items so
    /// far, and extends none of them.
    pub open spec fn admits(self, key: Seq<u8>) -> bool {
        if self.items.len() == 0 {
            key.len() > 0
        } else {
            follows(self.items.last().key, key)
        }
    }

    /// One item more.
    pub open spec fn with_item(self, item: Item) -> BuilderModel {
        BuilderModel {
            items: self.items.push(item),
            value: item.value,
            stored_in_database: match item.value {
                ItemValue::Leaf(_) => self.stored_in_database,
                ItemValue::Hash(_, stored) => stored,
            },
            ..self
        }
    }

    /// One hash more of a whole trie.
    pub open spec fn with_word(self, word: Seq<u8>, stored: bool) -> BuilderModel {
        BuilderModel {
            words: self.words.push(word),
            value: ItemValue::Hash(word, stored),
            stored_in_database: stored,
            ..self
        }
    }

    /// With branch nodes retained from now on.
    pub open spec fn retaining(self) -> BuilderModel {
        BuilderModel {
            retained: Some(Retained { earlier: Map::empty(), dropped: self.complete().dom() }),
            ..self
        }
    }

    /// What is left when the root has been taken.
    pub open spec fn taken(self) -> BuilderModel {
        if self.items.len() > 0 {
            BuilderModel {
                items: Seq::empty(),
                value: ItemValue::Leaf(Seq::empty()),
                retained: match self.retained {
                    Some(kept) => Some(
                        Retained {
                            earlier: kept.earlier.union_prefer_right(
                                trie_branches(self.items).remove_keys(kept.dropped),
                            ),
                            dropped: Set::empty(),
                        },
                    ),
                    None => None,
                },
                ..self
            }
        } else if self.words.len() > 0 {
            BuilderModel { words: self.words.drop_last(), ..self }
        } else {
            self
        }
    }

    /// The root hash: that of the trie of the items, or else the last hash that was added with an
    /// empty key, or else that of the empty trie.
    pub open spec fn root(self) -> Seq<u8> {
        if self.items.len() > 0 {
            trie_root(self.items)
        } else if self.words.len() > 0 {
            self.words.last()
        } else {
            EMPTY_ROOT_HASH@
        }
    }
}

/// The branch node is what `model` says, but for the hashes of its children.
pub open spec fn outline_is(node: BranchNodeCompact, model: BranchModel) -> bool {
    &&& node.state_mask.bits == model.state_mask
    &&& node.tree_mask.bits == model.tree_mask
    &&& node.hash_mask.bits == model.hash_mask
    &&& match node.root_hash {
        Some(hash) => model.root_hash == Some(hash@),
        None => model.root_hash is None,
    }
}

/// The branch node is what `model` says.
pub open spec fn compact_is(node: BranchNodeCompact, model: BranchModel) -> bool {
    &&& outline_is(node, model)
    &&& word_views(node.hashes@) == hashes_of(model.hashed)
}

/// A node that is what the model says has its three masks bit for bit, one hash for each of its
/// references, which is what the reference holds behind its first byte, and its root hash.
pub proof fn law_node_is_its_model(node: BranchNodeCompact, model: BranchModel)
    ensures
        compact_is(node, model) <==> {
            &&& node.state_mask.bits == model.state_mask
            &&& node.tree_mask.bits == model.tree_mask
            &&& node.hash_mask.bits == model.hash_mask
            &&& node.hashes@.len() == model.hashed.len()
            &&& forall|k: int|
                0 <= k < node.hashes@.len() ==> (#[trigger] node.hashes@[k])@
                    == model.hashed[k].subrange(1, 33)
            &&& node.root_hash is Some <==> model.root_hash is Some
            &&& node.root_hash is Some ==> node.root_hash->Some_0@ == model.root_hash->Some_0
        },
        outline_is(node, model) <==> {
            &&& node.state_mask.bits == model.state_mask
            &&& node.tree_mask.bits == model.tree_mask
            &&& node.hash_mask.bits == model.hash_mask
            &&& node.root_hash is Some <==> model.root_hash is Some
            &&& node.root_hash is Some ==> node.root_hash->Some_0@ == model.root_hash->Some_0
        },
{
    let words = word_views(node.hashes@);
    let hashes = hashes_of(model.hashed);
    assert forall|k: int| 0 <= k < words.len() implies #[trigger] words[k]
        == node.hashes@[k]@ by {}
    if compact_is(node, model) {
        assert(words.len() == hashes.len());
        assert forall|k: int| 0 <= k < node.hashes@.len() implies (#[trigger] node.hashes@[k])@
            == model.hashed[k].subrange(1, 33) by {
            assert(words[k] == hashes[k]);
        }
    }
    if node.hashes@.len() == model.hashed.len() && forall|k: int|
        0 <= k < node.hashes@.len() ==> (#[trigger] node.hashes@[k])@ == model.hashed[k].subrange(
            1,
            33,
        ) {
        assert(words =~= hashes);
    }
}

} // verus!
