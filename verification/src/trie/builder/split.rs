//! Splitting off the branch nodes.
use crate::trie::builder::ParallelHashBuilder;
use crate::trie::builder::fields::Fields;
use crate::trie::builder::model::{compact_is, law_node_is_its_model, BuilderModel};
use crate::trie::builder::state::{entries_model, entry_model, History};
use crate::trie::model::BranchModel;
use crate::trie::node::reported;
use crate::trie::rlp::all_hashes;
use crate::trie::updates::{copy_words, BranchNodeCompact, PathMap};
use vstd::prelude::*;

verus! {

impl ParallelHashBuilder {
    /// Where the hashes of all retained branches are known, each entry has its report; and only
    /// there.
    proof fn lemma_settled(&self)
        requires
            self.wf(),
        ensures
            self@.settled() <==> (self.updated_branch_nodes matches Some(map) ==> forall|
                path: Seq<u8>,
            | #[trigger]
                map@.dom().contains(path) ==> self.inbox@[map@[path].slot->Some_0 as int] is Some),
            self.updated_branch_nodes matches Some(map) ==> map@.dom() == self@.updates().dom(),
    {
        self.lemma_complete();
        let h = self.history@;
        if self.updated_branch_nodes is Some {
            let map = self.updated_branch_nodes->Some_0;
            let now = self@.pending();
            let entries = entries_model(map@, h.reports);
            assert(entries == self@.updates());
            assert(map@.dom() =~= entries.dom());
            if self@.settled() {
                assert forall|path: Seq<u8>| #[trigger] map@.dom().contains(path) implies
                    self.inbox@[map@[path].slot->Some_0 as int] is Some by {
                    assert(self@.updates().dom().contains(path));
                    assert(!now.dom().contains(path));
                    let slot = map@[path].slot->Some_0;
                    assert(entries[path].hashed == h.reports[slot as int].hashed);
                }
            } else if forall|path: Seq<u8>| #[trigger]
                map@.dom().contains(path) ==> self.inbox@[map@[path].slot->Some_0 as int] is Some {
                assert forall|path: Seq<u8>| !now.dom().contains(path) by {
                    if now.dom().contains(path) {
                        assert(map@.dom().contains(path));
                    }
                }
                assert(now =~= Map::<Seq<u8>, BranchModel>::empty());
                assert forall|path: Seq<u8>| #[trigger]
                    self@.updates().dom().contains(path) implies all_hashes(
                    self@.updates()[path].hashed,
                ) by {
                    assert(map@.dom().contains(path));
                    let slot = map@[path].slot->Some_0;
                    assert(entries[path].hashed == h.reports[slot as int].hashed);
                }
                assert(false);
            }
        } else {
            assert(self@.pending() == Map::<Seq<u8>, BranchModel>::empty());
        }
    }

    /// Splits the builder into one that retains no branch nodes, and the branch nodes retained so
    /// far with their hashes.
    pub fn split(self) -> (r: (Self, PathMap<BranchNodeCompact>))
        requires
            self.wf(),
            self@.settled(),
        ensures
            r.0.wf(),
            r.0@ == (BuilderModel { retained: None, ..self@ }),
            r.0.fields() == (Fields { updated_branch_nodes: None, ..self.fields() }),
            r.1.wf(),
            r.1@.dom() == self@.updates().dom(),
            forall|path: Seq<u8>| #[trigger]
                r.1@.dom().contains(path) ==> compact_is(r.1@[path], self@.updates()[path]),
            r.0@.words == self@.words,
            r.0@.items == self@.items,
            r.0@.value == self@.value,
            r.0@.stored_in_database == self@.stored_in_database,
            r.0@.retained is None,
            forall|path: Seq<u8>| #[trigger]
                r.1@.dom().contains(path) ==> {
                    let node = r.1@[path];
                    let branch = self@.updates()[path];
                    &&& node.state_mask.bits == branch.state_mask
                    &&& node.tree_mask.bits == branch.tree_mask
                    &&& node.hash_mask.bits == branch.hash_mask
                    &&& node.hashes@.len() == branch.hashed.len()
                    &&& forall|k: int|
                        0 <= k < node.hashes@.len() ==> branch.hashed[k].len() == 33 && (
                        #[trigger] node.hashes@[k])@ == branch.hashed[k].subrange(1, 33)
                    &&& node.root_hash is Some <==> branch.root_hash is Some
                    &&& node.root_hash is Some ==> node.root_hash->Some_0@
                        == branch.root_hash->Some_0
                },
    {
        proof {
            self.lemma_complete();
            self.lemma_settled();
        }
        let ghost model = self@.updates();
        let ghost reports = self.history@.reports;
        let ghost retained = self.updated_branch_nodes;
        let mut builder = self;
        let mut nodes: PathMap<BranchNodeCompact> = PathMap::new();
        if let Some(map) = builder.updated_branch_nodes.take() {
            assert(retained == Some(map));
            let entries = map.entries();
            assert(entries_model(map@, reports) == model);
            let mut i: usize = 0;
            while i < entries.len()
                invariant
                    i <= entries@.len(),
                    nodes.wf(),
                    builder.inbox@.len() == reports.len(),
                    entries_model(map@, reports) == model,
                    forall|path: Seq<u8>| #[trigger]
                        map@.dom().contains(path) ==> map@[path].slot is Some
                            && map@[path].slot->Some_0 < reports.len() && builder.inbox@[
                            map@[path].slot->Some_0 as int] is Some && reported(
                            builder.inbox@,
                            reports,
                            map@[path].slot->Some_0,
                        ),
                    forall|j: int|
                        #![trigger entries@[j]]
                        0 <= j < entries@.len() ==> map@.dom().contains(entries@[j].0@)
                            && map@[entries@[j].0@] == entries@[j].1,
                    forall|j: int|
                        #![trigger entries@[j]]
                        0 <= j < i ==> nodes@.dom().contains(entries@[j].0@),
                    forall|path: Seq<u8>| #[trigger]
                        nodes@.dom().contains(path) ==> map@.dom().contains(path) && compact_is(
                            nodes@[path],
                            model[path],
                        ),
                decreases entries@.len() - i,
            {
                let (path, entry) = (&entries[i].0, &entries[i].1);
                assert(map@.dom().contains(entries@[i as int].0@));
                assert(entries_model(map@, reports).dom().contains(path@));
                assert(model[path@] == entry_model(*entry, reports));
                if let Some(slot) = entry.slot {
                    if let Some(report) = &builder.inbox[slot] {
                        let node = BranchNodeCompact {
                            state_mask: entry.node.state_mask,
                            tree_mask: entry.node.tree_mask,
                            hash_mask: entry.node.hash_mask,
                            hashes: copy_words(&report.hashes),
                            root_hash: entry.node.root_hash,
                        };
                        assert(compact_is(node, model[path@]));
                        nodes.insert(path.clone(), node);
                    }
                }
                i = i + 1;
            }
            assert(nodes@.dom() =~= map@.dom());
        } else {
            assert(nodes@.dom() =~= model.dom());
        }
        builder.history = Ghost(
            History {
                words: builder.history@.words,
                levels: builder.history@.levels,
                reports: builder.history@.reports,
                retained: None,
            },
        );
        proof {
            assert forall|path: Seq<u8>| #[trigger] nodes@.dom().contains(path) implies {
                let node = nodes@[path];
                let branch = model[path];
                &&& node.state_mask.bits == branch.state_mask
                &&& node.tree_mask.bits == branch.tree_mask
                &&& node.hash_mask.bits == branch.hash_mask
                &&& node.hashes@.len() == branch.hashed.len()
                &&& forall|k: int|
                    0 <= k < node.hashes@.len() ==> branch.hashed[k].len() == 33 && (
                    #[trigger] node.hashes@[k])@ == branch.hashed[k].subrange(1, 33)
                &&& node.root_hash is Some <==> branch.root_hash is Some
                &&& node.root_hash is Some ==> node.root_hash->Some_0@ == branch.root_hash->Some_0
            } by {
                law_node_is_its_model(nodes@[path], model[path]);
                assert(model.dom().contains(path));
                assert(all_hashes(model[path].hashed));
            }
        }
        (builder, nodes)
    }

    /// Splits the builder as [`Self::split`] does, where the hashes of all retained branches are
    /// known; otherwise gives it back.
    pub fn try_split(self) -> (r: Result<(Self, PathMap<BranchNodeCompact>), Self>)
        requires
            self.wf(),
        ensures
            match r {
                Ok(parts) => {
                    &&& self@.settled()
                    &&& parts.0.wf()
                    &&& parts.0@ == (BuilderModel { retained: None, ..self@ })
                    &&& parts.0.fields() == (Fields { updated_branch_nodes: None, ..self.fields() })
                    &&& parts.1.wf()
                    &&& parts.1@.dom() == self@.updates().dom()
                    &&& forall|path: Seq<u8>| #[trigger]
                        parts.1@.dom().contains(path) ==> compact_is(
                            parts.1@[path],
                            self@.updates()[path],
                        )
                    &&& parts.0@.words == self@.words
                    &&& parts.0@.items == self@.items
                    &&& parts.0@.value == self@.value
                    &&& parts.0@.stored_in_database == self@.stored_in_database
                    &&& parts.0@.retained is None
                    &&& forall|path: Seq<u8>| #[trigger]
                        parts.1@.dom().contains(path) ==> {
                            let node = parts.1@[path];
                            let branch = self@.updates()[path];
                            &&& node.state_mask.bits == branch.state_mask
                            &&& node.tree_mask.bits == branch.tree_mask
                            &&& node.hash_mask.bits == branch.hash_mask
                            &&& node.hashes@.len() == branch.hashed.len()
                            &&& forall|k: int|
                                0 <= k < node.hashes@.len() ==> branch.hashed[k].len() == 33 && (
                                #[trigger] node.hashes@[k])@ == branch.hashed[k].subrange(1, 33)
                            &&& node.root_hash is Some <==> branch.root_hash is Some
                            &&& node.root_hash is Some ==> node.root_hash->Some_0@
                                == branch.root_hash->Some_0
                        }
                },
                Err(builder) => !self@.settled() && builder == self,
            },
    {
        proof {
            self.lemma_complete();
            self.lemma_settled();
        }
        if let Some(map) = &self.updated_branch_nodes {
            let entries = map.entries();
            let mut i: usize = 0;
            while i < entries.len()
                invariant
                    i <= entries@.len(),
                    self.updated_branch_nodes == Some(*map),
                    !(forall|path: Seq<u8>| #[trigger]
                        map@.dom().contains(path) ==> self.inbox@[
                            map@[path].slot->Some_0 as int] is Some) ==> !self@.settled(),
                    forall|path: Seq<u8>| #[trigger]
                        map@.dom().contains(path) ==> map@[path].slot is Some
                            && map@[path].slot->Some_0 < self.inbox@.len(),
                    forall|j: int|
                        #![trigger entries@[j]]
                        0 <= j < entries@.len() ==> map@.dom().contains(entries@[j].0@)
                            && map@[entries@[j].0@] == entries@[j].1,
                    forall|j: int|
                        #![trigger entries@[j]]
                        0 <= j < i ==> self.inbox@[entries@[j].1.slot->Some_0 as int] is Some,
                decreases entries@.len() - i,
            {
                let slot = entries[i].1.slot;
                assert(map@.dom().contains(entries@[i as int].0@));
                if let Some(position) = slot {
                    if self.inbox[position].is_none() {
                        return Err(self);
                    }
                }
                i = i + 1;
            }
            assert forall|path: Seq<u8>| #[trigger] map@.dom().contains(path) implies self.inbox@[
                map@[path].slot->Some_0 as int] is Some by {
                let j = choose|j: int|
                    0 <= j < entries@.len() && (#[trigger] entries@[j]).0@ == path;
                assert(entries@[j].1 == map@[path]);
            }
        }
        Ok(self.split())
    }
}

} // verus!
