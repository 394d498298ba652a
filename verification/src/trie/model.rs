//! What a Merkle Patricia trie is: the nodes that a collection of items has, and the branch nodes
//! among them that are kept in the database.
use crate::trie::form::NodeForm;
use crate::trie::mask::nibble_bit;
use crate::trie::nibbles::lcp;
use crate::trie::rlp::{
    branch_reference, extension_reference, leaf_reference, masked_children, reference_hash,
    word_reference,
};
use vstd::prelude::*;

verus! {

/// What stands at the end of a key.
pub enum ItemValue {
    /// A value.
    Leaf(Seq<u8>),
    /// A subtree known by its hash, and whether that subtree is stored in the database.
    Hash(Seq<u8>, bool),
}

/// A key and what stands at its end.
pub struct Item {
    pub key: Seq<u8>,
    pub value: ItemValue,
}

/// A branch node that is kept in the database.
pub struct BranchModel {
    /// The nibbles that have a child.
    pub state_mask: u16,
    /// The nibbles whose child leads to a branch in the database.
    pub tree_mask: u16,
    /// The nibbles whose child is a branch, or a subtree known by its hash.
    pub hash_mask: u16,
    /// The references to the children of `hash_mask`, in the order of their nibbles.
    pub hashed: Seq<Seq<u8>>,
    /// The hash of the node, where it is the root of the trie.
    pub root_hash: Option<Seq<u8>>,
}

/// A trie, or the part of one below some path.
#[verifier::ext_equal]
pub struct Subtrie {
    /// The reference to its top node.
    pub rlp: Seq<u8>,
    /// Whether the top node is a branch, or a subtree known by its hash.
    pub is_hash: bool,
    /// Whether it leads to a branch in the database.
    pub in_db: bool,
    /// Its branches that are kept in the database, by their paths from the root.
    pub stored: Map<Seq<u8>, BranchModel>,
}

/// The children of a branch, each the trie of the items that have its nibble.
#[verifier::ext_equal]
pub struct Fan {
    pub rlps: Seq<Seq<u8>>,
    pub state_mask: u16,
    pub tree_mask: u16,
    pub hash_mask: u16,
    pub stored: Map<Seq<u8>, BranchModel>,
}

/// The items whose key holds `n` at position `d`.
pub open spec fn with_nibble(items: Seq<Item>, d: nat, n: u8) -> Seq<Item> {
    items.filter(|item: Item| item.key.len() > d && item.key[d as int] == n)
}

/// The length of the longest key.
pub open spec fn longest(items: Seq<Item>) -> nat
    decreases items.len(),
{
    if items.len() == 0 {
        0
    } else {
        let rest = longest(items.drop_last());
        if items.last().key.len() > rest {
            items.last().key.len()
        } else {
            rest
        }
    }
}

/// The length of the longest prefix that all keys share.
pub open spec fn shared_len(items: Seq<Item>) -> nat
    decreases items.len(),
{
    if items.len() == 0 {
        0
    } else if items.len() == 1 {
        items[0].key.len()
    } else {
        let rest = shared_len(items.drop_last());
        let l = lcp(items[0].key, items.last().key);
        if l < rest {
            l
        } else {
            rest
        }
    }
}

/// How much of the longest key is left below depth `d`, and one more.
pub open spec fn room(items: Seq<Item>, d: nat) -> nat {
    if longest(items) >= d {
        (longest(items) + 1 - d) as nat
    } else {
        0
    }
}

/// Choosing among items leaves no longer key.
pub proof fn lemma_longest_with_nibble(items: Seq<Item>, d: nat, n: u8)
    ensures
        longest(with_nibble(items, d, n)) <= longest(items),
    decreases items.len(),
{
    reveal_with_fuel(Seq::filter, 2);
    if items.len() > 0 {
        lemma_longest_with_nibble(items.drop_last(), d, n);
        let kept = with_nibble(items.drop_last(), d, n);
        assert(kept.push(items.last()).drop_last() =~= kept);
    }
}

/// The children that the items have at position `d`, for the nibbles below `n`.
pub open spec fn fan(items: Seq<Item>, d: nat, n: nat) -> Fan
    decreases room(items, d), 1nat, n,
{
    if n == 0 || d > longest(items) {
        Fan {
            rlps: Seq::empty(),
            state_mask: 0,
            tree_mask: 0,
            hash_mask: 0,
            stored: Map::empty(),
        }
    } else {
        let m = (n - 1) as u8;
        let rest = fan(items, d, (n - 1) as nat);
        let below = with_nibble(items, d, m);
        if below.len() == 0 {
            rest
        } else {
            proof {
                lemma_longest_with_nibble(items, d, m);
            }
            rest.with_child(m, subtrie(below, d + 1))
        }
    }
}

/// The trie of the items, seen from depth `d`: all keys have the same first `d` nibbles, and
/// those are left out.
///
/// One item is a leaf, or the hash of a subtree behind an extension. More than one are a branch
/// at the end of the prefix that their keys share, behind an extension where that prefix is longer
/// than `d`. A branch is kept in the database where one of its children leads to a branch in the
/// database, or is a branch or a hash itself.
pub open spec fn subtrie(items: Seq<Item>, d: nat) -> Subtrie
    decreases room(items, d), 2nat, 0nat,
{
    if items.len() == 1 {
        single(items[0], d)
    } else {
        let c = shared_len(items);
        if d <= c <= longest(items) {
            let children = fan(items, c, 16);
            branch_subtrie(children, items[0].key.take(c as int), d)
        } else {
            Subtrie {
                rlp: Seq::empty(),
                is_hash: false,
                in_db: false,
                stored: Map::empty(),
            }
        }
    }
}

/// The trie of one item, seen from depth `d`.
pub open spec fn single(item: Item, d: nat) -> Subtrie {
    match item.value {
        ItemValue::Leaf(value) => Subtrie {
            rlp: leaf_reference(item.key.skip(d as int), value),
            is_hash: false,
            in_db: false,
            stored: Map::empty(),
        },
        ItemValue::Hash(hash, in_db) => Subtrie {
            rlp: extended(item.key, d, word_reference(hash)),
            is_hash: item.key.len() == d,
            in_db,
            stored: Map::empty(),
        },
    }
}

/// The reference to a node at the end of `path`, seen from depth `d`.
pub open spec fn extended(path: Seq<u8>, d: nat, rlp: Seq<u8>) -> Seq<u8> {
    if path.len() == d {
        rlp
    } else {
        extension_reference(path.skip(d as int), rlp)
    }
}

/// A node at the end of `path`, seen from depth `d`.
pub open spec fn extended_form(path: Seq<u8>, d: nat, form: NodeForm) -> NodeForm {
    if path.len() == d {
        form
    } else {
        NodeForm::Extension(path.skip(d as int), Box::new(form))
    }
}

/// The trie with a branch at `path`, seen from depth `d`.
pub open spec fn branch_subtrie(children: Fan, path: Seq<u8>, d: nat) -> Subtrie {
    let in_db = children.tree_mask != 0 || children.hash_mask != 0;
    Subtrie {
        rlp: extended(path, d, children.reference()),
        is_hash: path.len() == d,
        in_db,
        stored: if in_db {
            children.stored.insert(path, children.branch(path))
        } else {
            children.stored
        },
    }
}

impl Fan {
    /// One child more, at nibble `n`.
    pub open spec fn with_child(self, n: u8, child: Subtrie) -> Fan {
        let bit = nibble_bit(n);
        Fan {
            rlps: self.rlps.push(child.rlp),
            state_mask: self.state_mask | bit,
            tree_mask: if child.in_db {
                self.tree_mask | bit
            } else {
                self.tree_mask
            },
            hash_mask: if child.is_hash {
                self.hash_mask | bit
            } else {
                self.hash_mask
            },
            stored: self.stored.union_prefer_right(child.stored),
        }
    }

    /// The branch with these children, made when `base` was on the stack below their nodes
    /// `forms`: it holds the whole stack, and the position of its first child.
    pub open spec fn form(self, base: Seq<NodeForm>, forms: Seq<NodeForm>) -> NodeForm {
        NodeForm::Branch {
            nodes: base + forms,
            state_mask: self.state_mask,
            hash_mask: self.hash_mask,
            first: base.len(),
        }
    }

    /// The reference to the branch that has these children.
    pub open spec fn reference(self) -> Seq<u8> {
        branch_reference(self.rlps, self.state_mask)
    }

    /// The references to the children of the hash mask.
    pub open spec fn hashed(self) -> Seq<Seq<u8>> {
        masked_children(self.rlps, self.state_mask, self.hash_mask, 16)
    }

    /// What the database keeps of the branch at `path` that has these children.
    pub open spec fn branch(self, path: Seq<u8>) -> BranchModel {
        BranchModel {
            state_mask: self.state_mask,
            tree_mask: self.tree_mask,
            hash_mask: self.hash_mask,
            hashed: self.hashed(),
            root_hash: if path.len() == 0 {
                Some(reference_hash(self.reference()))
            } else {
                None
            },
        }
    }
}

/// The nodes of the children that the items have at position `d`, for the nibbles below `n`, where
/// `base` is on the stack below them.
pub open spec fn fan_forms(items: Seq<Item>, d: nat, n: nat, base: Seq<NodeForm>) -> Seq<NodeForm>
    decreases room(items, d), 1nat, n,
{
    if n == 0 || d > longest(items) {
        Seq::empty()
    } else {
        let m = (n - 1) as u8;
        let rest = fan_forms(items, d, (n - 1) as nat, base);
        let below = with_nibble(items, d, m);
        if below.len() == 0 {
            rest
        } else {
            proof {
                lemma_longest_with_nibble(items, d, m);
            }
            rest.push(trie_form(below, d + 1, base + rest))
        }
    }
}

/// The top node of the trie of the items, seen from depth `d`, where `base` is on the stack below
/// it.
pub open spec fn trie_form(items: Seq<Item>, d: nat, base: Seq<NodeForm>) -> NodeForm
    decreases room(items, d), 2nat, 0nat,
{
    if items.len() == 1 {
        match items[0].value {
            ItemValue::Leaf(value) => NodeForm::Leaf(items[0].key.skip(d as int), value),
            ItemValue::Hash(hash, _) => extended_form(items[0].key, d, NodeForm::Word(hash)),
        }
    } else {
        let c = shared_len(items);
        if d <= c <= longest(items) {
            extended_form(
                items[0].key.take(c as int),
                d,
                fan(items, c, 16).form(base, fan_forms(items, c, 16, base)),
            )
        } else {
            NodeForm::Unset
        }
    }
}

/// The root hash of the trie of the items.
pub open spec fn trie_root(items: Seq<Item>) -> Seq<u8> {
    reference_hash(subtrie(items, 0).rlp)
}

/// The branches of the trie of the items that are kept in the database.
pub open spec fn trie_branches(items: Seq<Item>) -> Map<Seq<u8>, BranchModel> {
    subtrie(items, 0).stored
}

} // verus!
