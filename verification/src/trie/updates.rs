//! Branch nodes by their paths.
use crate::trie::mask::{bits_below, is_subset, TrieMask};
use crate::trie::nibbles::Nibbles;
use crate::trie::rlp::word_views;
use vstd::prelude::*;

verus! {

/// A branch node as the database keeps it.
#[derive(Debug)]
pub struct BranchNodeCompact {
    /// The nibbles that have a child.
    pub state_mask: TrieMask,
    /// The nibbles whose child leads to a branch in the database.
    pub tree_mask: TrieMask,
    /// The nibbles whose child is a branch, or a subtree known by its hash.
    pub hash_mask: TrieMask,
    /// The hashes of the children of `hash_mask`, in the order of their nibbles.
    pub hashes: Vec<[u8; 32]>,
    /// The hash of the node, where it is the root of the trie.
    pub root_hash: Option<[u8; 32]>,
}

impl BranchNodeCompact {
    /// The branch node with the given masks and hashes.
    pub fn new(
        state_mask: TrieMask,
        tree_mask: TrieMask,
        hash_mask: TrieMask,
        hashes: Vec<[u8; 32]>,
        root_hash: Option<[u8; 32]>,
    ) -> (r: Self)
        requires
            is_subset(tree_mask.bits, state_mask.bits),
            is_subset(hash_mask.bits, state_mask.bits),
            hashes@.len() == bits_below(hash_mask.bits, 16),
        ensures
            r.state_mask == state_mask,
            r.tree_mask == tree_mask,
            r.hash_mask == hash_mask,
            r.hashes == hashes,
            r.root_hash == root_hash,
    {
        BranchNodeCompact { state_mask, tree_mask, hash_mask, hashes, root_hash }
    }
}

/// The hasher of the maps of `alloy_primitives`.
#[verifier::external_type_specification]
#[verifier::external_body]
pub struct ExDefaultHashBuilder(alloy_primitives::map::DefaultHashBuilder);

/// The hash map from paths to positions.
pub type PathIndex = alloy_primitives::map::HashMap<Vec<u8>, usize>;

/// The position that each path has in `index`.
pub uninterp spec fn positions_of(index: PathIndex) -> Map<Seq<u8>, usize>;

/// Calls `alloy_primitives::map::HashMap::default`: the map holds nothing.
#[verifier::external_body]
fn new_index() -> (r: PathIndex)
    ensures
        positions_of(r).dom() == Set::<Seq<u8>>::empty(),
{
    alloy_primitives::map::HashMap::default()
}

/// Calls `alloy_primitives::map::HashMap::insert`: the path has the position afterwards, whatever
/// it had before, and all other paths keep theirs.
#[verifier::external_body]
fn index_insert(
    index: &mut PathIndex,
    path: Vec<u8>,
    position: usize,
)
    ensures
        positions_of(*final(index)) == positions_of(*old(index)).insert(path@, position),
{
    index.insert(path, position);
}

/// Calls `alloy_primitives::map::HashMap::get`: the position of the path, if it has one.
#[verifier::external_body]
fn index_get(index: &PathIndex, path: &[u8]) -> (r: Option<usize>)
    ensures
        r == (if positions_of(*index).dom().contains(path@) {
            Some(positions_of(*index)[path@])
        } else {
            None
        }),
{
    index.get(path).copied()
}

/// A map from paths to values.
#[verifier::reject_recursive_types(V)]
pub struct PathMap<V> {
    index: PathIndex,
    entries: Vec<(Nibbles, V)>,
}

impl<V> View for PathMap<V> {
    type V = Map<Seq<u8>, V>;

    closed spec fn view(&self) -> Map<Seq<u8>, V> {
        Map::new(
            |path: Seq<u8>| positions_of(self.index).dom().contains(path),
            |path: Seq<u8>| self.entries@[positions_of(self.index)[path] as int].1,
        )
    }
}

impl<V> PathMap<V> {
    /// Whether the index and the entries agree.
    pub closed spec fn wf(&self) -> bool {
        let positions = positions_of(self.index);
        &&& forall|path: Seq<u8>| #[trigger]
            positions.dom().contains(path) ==> positions[path] < self.entries@.len()
                && self.entries@[positions[path] as int].0@ == path
        &&& forall|i: int|
            #![trigger self.entries@[i]]
            0 <= i < self.entries@.len() ==> positions.dom().contains(self.entries@[i].0@)
                && positions[self.entries@[i].0@] == i
    }

    /// The map without entries.
    pub fn new() -> (r: Self)
        ensures
            r.wf(),
            r@ == Map::<Seq<u8>, V>::empty(),
    {
        let r = PathMap { index: new_index(), entries: Vec::new() };
        assert(r@ =~= Map::<Seq<u8>, V>::empty());
        r
    }

    /// Sets the value at `path`.
    pub fn insert(&mut self, path: Nibbles, value: V)
        requires
            old(self).wf(),
        ensures
            final(self).wf(),
            final(self)@ == old(self)@.insert(path@, value),
    {
        let ghost key = path@;
        match index_get(&self.index, path.as_slice()) {
            Some(position) => {
                self.entries[position] = (path, value);
            },
            None => {
                let position: usize = self.entries.len();
                let copy: Vec<u8> = copy_bytes(path.as_slice());
                index_insert(&mut self.index, copy, position);
                self.entries.push((path, value));
            },
        }
        assert(self@ =~= old(self)@.insert(key, value));
    }

    /// The value at `path`.
    pub fn get(&self, path: &Nibbles) -> (r: Option<&V>)
        requires
            self.wf(),
        ensures
            match r {
                Some(value) => self@.dom().contains(path@) && self@[path@] == *value,
                None => !self@.dom().contains(path@),
            },
    {
        match index_get(&self.index, path.as_slice()) {
            Some(position) => Some(&self.entries[position].1),
            None => None,
        }
    }

    /// The number of paths that have a value.
    pub fn len(&self) -> (r: usize)
        requires
            self.wf(),
        ensures
            self@.dom().finite(),
            r == self@.dom().len(),
    {
        proof {
            let paths = self.entries@.map_values(|entry: (Nibbles, V)| entry.0@);
            assert forall|i: int, j: int|
                0 <= i < paths.len() && 0 <= j < paths.len() && i != j implies paths[i]
                != paths[j] by {
                assert(paths[i] == self.entries@[i].0@);
                assert(paths[j] == self.entries@[j].0@);
            }
            assert(paths.no_duplicates());
            paths.unique_seq_to_set();
            assert(self@.dom() =~= paths.to_set()) by {
                assert forall|p: Seq<u8>| self@.dom().contains(p) implies paths.to_set().contains(
                    p,
                ) by {
                    let i = positions_of(self.index)[p] as int;
                    assert(paths[i] == p);
                }
                assert forall|p: Seq<u8>| paths.to_set().contains(p) implies self@.dom().contains(
                    p,
                ) by {
                    let i = choose|i: int| 0 <= i < paths.len() && paths[i] == p;
                    assert(self.entries@[i].0@ == p);
                }
            }
        }
        self.entries.len()
    }

    /// The paths and their values, each path once.
    pub fn entries(&self) -> (r: &Vec<(Nibbles, V)>)
        requires
            self.wf(),
        ensures
            forall|i: int|
                #![trigger r@[i]]
                0 <= i < r@.len() ==> self@.dom().contains(r@[i].0@) && self@[r@[i].0@]
                    == r@[i].1,
            forall|path: Seq<u8>| #[trigger]
                self@.dom().contains(path) ==> exists|i: int|
                    0 <= i < r@.len() && (#[trigger] r@[i]).0@ == path,
            forall|i: int, j: int|
                #![trigger r@[i], r@[j]]
                0 <= i < j < r@.len() ==> r@[i].0@ != r@[j].0@,
    {
        proof {
            assert forall|path: Seq<u8>| #[trigger] self@.dom().contains(path) implies exists|
                i: int,
            | 0 <= i < self.entries@.len() && (#[trigger] self.entries@[i]).0@ == path by {
                let i = positions_of(self.index)[path] as int;
                assert(self.entries@[i].0@ == path);
            }
        }
        &self.entries
    }
}

/// A copy of the bytes.
pub fn copy_bytes(bytes: &[u8]) -> (r: Vec<u8>)
    ensures
        r@ == bytes@,
{
    let mut out: Vec<u8> = Vec::new();
    let mut i: usize = 0;
    while i < bytes.len()
        invariant
            i <= bytes@.len(),
            out@ == bytes@.subrange(0, i as int),
        decreases bytes@.len() - i,
    {
        out.push(bytes[i]);
        assert(out@ =~= bytes@.subrange(0, i + 1));
        i = i + 1;
    }
    assert(bytes@.subrange(0, i as int) =~= bytes@);
    out
}

/// A copy of the words.
pub fn copy_words(words: &Vec<[u8; 32]>) -> (r: Vec<[u8; 32]>)
    ensures
        word_views(r@) == word_views(words@),
{
    let mut out: Vec<[u8; 32]> = Vec::new();
    let mut i: usize = 0;
    while i < words.len()
        invariant
            i <= words@.len(),
            out@ == words@.subrange(0, i as int),
        decreases words@.len() - i,
    {
        out.push(words[i]);
        assert(out@ =~= words@.subrange(0, i + 1));
        i = i + 1;
    }
    assert(words@.subrange(0, i as int) =~= words@);
    out
}

} // verus!
