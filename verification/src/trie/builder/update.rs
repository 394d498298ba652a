//! Folding an item into the trie.
use crate::trie::builder::ParallelHashBuilder;
use crate::trie::builder::fields::{lemma_level_bits, mask_bits, total_bits};
use crate::trie::builder::model::{
    hash_masks_off, stack_off, state_masks_off, tree_masks_off, word_forms,
};
use crate::trie::builder::state::{
    db_masks_are, full_stack_is, lemma_full_push, lemma_updates_kept, state_masks_are, updates_are,
    History,
};
use crate::trie::builder::steps::{pop_empty, resize_with_empty};
use crate::trie::form::{form_rlp, is_full, lemma_form_rlps_from, NodeForm};
use crate::trie::lemmas::{
    all_below, all_start_with, lemma_branch, lemma_depth, lemma_fan_append, lemma_fan_empty,
    lemma_fan_forms, lemma_fan_masks, lemma_form_rlp, lemma_start_with_shorter,
};
use crate::trie::levels::{
    flat, lemma_branches_leave, lemma_last_leaves, lemma_level_mask, lemma_place, lemma_widen,
    level_branches, level_fan, level_forms, levels_off, mask_count, place, widen,
};
use crate::trie::mask::{has_bit, lemma_set_bit, TrieMask};
use crate::trie::model::{fan, fan_forms, subtrie, trie_branches, trie_form, trie_root, Item};
use crate::trie::nibbles::{all_nibbles, follows, lcp, lemma_lcp, lemma_lcp_unique, Nibbles};
use crate::trie::node::{any_mentions, lemma_node_forms, node_form, node_forms};
use crate::trie::rlp::reference_hash;
use vstd::prelude::*;

verus! {

/// The key that comes next leaves the prefix `path` of the last key where it leaves that key.
pub(super) proof fn lemma_next_leaves(key: Seq<u8>, path: Seq<u8>, next: Seq<u8>)
    requires
        0 < path.len() <= key.len(),
        path == key.take(path.len() as int),
        next.len() == 0 || (follows(key, next) && lcp(key, next) < path.len()),
    ensures
        next.len() == 0 ==> lcp(next, path) == 0,
        next.len() > 0 ==> lcp(next, path) == lcp(key, next) < next.len(),
        next.len() > 0 ==> path[lcp(key, next) as int] < next[lcp(key, next) as int],
{
    if next.len() == 0 {
        lemma_lcp(next, path);
    } else {
        lemma_lcp(key, next);
        let k = lcp(key, next);
        assert forall|j: int| 0 <= j < k implies #[trigger] next[j] == path[j] by {
            assert(key[j] == next[j]);
        }
        lemma_lcp_unique(next, path, k);
    }
}

/// Levels leave a path where they leave what is longer.
proof fn lemma_levels_off_shorter(levels: Seq<Seq<Item>>, path: Seq<u8>, len: int)
    requires
        levels_off(levels, path),
        levels.len() <= len <= path.len(),
    ensures
        levels_off(levels, path.take(len)),
{
    assert forall|i: int| #![trigger levels[i]] 0 <= i < levels.len() implies all_start_with(
        levels[i],
        path.take(len).take(i),
    ) && all_below(levels[i], i as nat, path.take(len)[i]) by {
        assert(path.take(len).take(i) =~= path.take(i));
    }
}

/// The levels with the finished trie added, as the next key sees them.
pub(super) proof fn lemma_levels_off_next(
    levels: Seq<Seq<Item>>,
    path: Seq<u8>,
    next: Seq<u8>,
    len: nat,
    g: Seq<Item>,
)
    requires
        levels_off(levels, path),
        levels.len() <= len + 1,
        all_start_with(g, path),
        len < path.len(),
        len < next.len(),
        lcp(next, path) == len,
        path[len as int] < next[len as int],
    ensures
        levels_off(place(levels, len, g), next),
{
    let placed = place(levels, len, g);
    lemma_lcp(next, path);
    assert forall|i: int| #![trigger placed[i]] 0 <= i < placed.len() implies all_start_with(
        placed[i],
        next.take(i),
    ) && all_below(placed[i], i as nat, next[i]) by {
        assert(next.take(i) =~= path.take(i));
        let there = if i < levels.len() {
            levels[i]
        } else {
            Seq::empty()
        };
        assert(all_start_with(there, path.take(i)));
        assert(all_below(there, i as nat, path[i]));
        if i < len {
            assert(next[i] == path[i]);
            assert(placed[i] == there);
        } else {
            lemma_start_with_shorter(g, path, i);
            let both = placed[i];
            assert(both == there + g);
            assert forall|j: int| #![trigger both[j]] 0 <= j < both.len() implies both[j].key.len()
                > i && both[j].key[i] < next[i] && both[j].key.take(i) == path.take(i) by {
                if j < there.len() {
                    assert(both[j] == there[j]);
                } else {
                    assert(both[j] == g[j - there.len()]);
                    assert(both[j].key.take(path.len() as int)[i] == path[i]);
                }
            }
        }
    }
}

/// Levels behind the last one with items can be left out.
proof fn lemma_trim(levels: Seq<Seq<Item>>, path: Seq<u8>, n: nat)
    requires
        levels_off(levels, path),
        all_nibbles(path),
        n <= levels.len(),
        forall|i: int| n <= i < levels.len() ==> (#[trigger] level_fan(levels, i)).state_mask == 0,
        n > 0 ==> level_fan(levels, n - 1).state_mask != 0,
    ensures
        levels_off(levels.take(n as int), path),
        n > 0 ==> levels.take(n as int).last().len() > 0,
        flat(levels.take(n as int)) == flat(levels),
        forall|base: Seq<NodeForm>| #[trigger]
            level_forms(levels.take(n as int), base) == level_forms(levels, base),
        level_branches(levels.take(n as int)) == level_branches(levels),
        forall|i: int| #[trigger]
            level_fan(levels.take(n as int), i) == level_fan(levels, i),
{
    let less = levels.take(n as int);
    assert forall|i: int| n <= i < levels.len() implies #[trigger] levels[i]
        =~= Seq::<Item>::empty() by {
        assert(level_fan(levels, i).state_mask == 0);
        lemma_level_mask(levels[i], i as nat, path[i]);
    }
    if n > 0 {
        assert(levels[n - 1] == less.last());
        lemma_level_mask(levels[n - 1], (n - 1) as nat, path[n - 1]);
    }
    assert(widen(less, levels.len()) =~= levels);
    lemma_widen(less, levels.len());
    assert forall|i: int| #[trigger] level_fan(less, i) == level_fan(levels, i) by {
        if n <= i < levels.len() {
            assert(levels[i] == Seq::<Item>::empty());
            lemma_fan_empty(i as nat, 16);
        }
    }
}

impl ParallelHashBuilder {
    /// The whole trie of `items` is one node on the stack, and nothing else is open.
    pub(super) open spec fn closed_with(&self, items: Seq<Item>) -> bool {
        let h = self.history@;
        &&& self.state_masks@.len() == 0
        &&& self.tree_masks@.len() == 0
        &&& self.hash_masks@.len() == 0
        &&& full_stack_is(
            self.stack@,
            self.base().push(trie_form(items, 0, self.base())),
            h.reports,
        )
        &&& self.inbox@.len() == h.reports.len()
        &&& updates_are(
            self.updated_branch_nodes,
            self.stack@,
            self.inbox@,
            h.reports,
            h.retained,
            trie_branches(items),
        )
    }

    /// What is on the stack of a closed trie.
    proof fn lemma_closed(&self, items: Seq<Item>)
        requires
            self.closed_with(items),
        ensures
            node_forms(self.stack@) == self.base().push(trie_form(items, 0, self.base())),
            self.stack@.len() == self.history@.words.len() + 1,
            reference_hash(form_rlp(node_form(self.stack@.last()))) == trie_root(items),
    {
        lemma_form_rlp(items, 0, self.base());
        lemma_node_forms(self.stack@);
        assert(node_forms(self.stack@) =~= self.base().push(trie_form(items, 0, self.base())));
    }

    /// Adds the trie `g` at the end of `current` to the levels, at level `len`. Where no branch is
    /// there or will be, which `branching` says, its node is left alone on the stack.
    #[verifier::rlimit(40)]
    fn add_to_level(
        &mut self,
        current: &Nibbles,
        len: usize,
        branching: bool,
        build_extensions: bool,
        Ghost(levels): Ghost<Seq<Seq<Item>>>,
        Ghost(g): Ghost<Seq<Item>>,
    )
        requires
            current.wf(),
            len < current@.len(),
            levels.len() <= len + 1,
            !branching ==> len == 0 && levels.len() == 0,
            old(self).hangs(current@, levels, g, build_extensions),
        ensures
            branching ==> final(self).levels_are(place(levels, len as nat, g)),
            branching ==> final(self).tree_masks@.len() == if (build_extensions || old(
                self,
            ).value is Hash) && len + 1 < current@.len() {
                (len + 1) as nat
            } else if old(self).tree_masks@.len() < current@.len() {
                current@.len()
            } else {
                old(self).tree_masks@.len()
            },
            !branching ==> {
                &&& full_stack_is(
                    final(self).stack@,
                    final(self).base().push(trie_form(g, 0, final(self).base())),
                    final(self).history@.reports,
                )
                &&& final(self).inbox@.len() == final(self).history@.reports.len()
                &&& updates_are(
                    final(self).updated_branch_nodes,
                    final(self).stack@,
                    final(self).inbox@,
                    final(self).history@.reports,
                    final(self).history@.retained,
                    subtrie(g, 0).stored,
                )
            },
            flat(place(levels, len as nat, g)) == flat(levels) + g,
            has_bit(
                level_fan(place(levels, len as nat, g), len as int).state_mask,
                current@[len as int],
            ),
            forall|slot: usize| #[trigger]
                any_mentions(final(self).stack@, slot) ==> any_mentions(old(self).stack@, slot),
            final(self).inbox == old(self).inbox,
            final(self).key == old(self).key,
            final(self).value == old(self).value,
            final(self).stored_in_database == old(self).stored_in_database,
            final(self).history == old(self).history,
    {
        let ghost path = current@;
        let ghost retained = self.history@.retained;
        let current_len: usize = current.len();
        let extra_digit: u8 = current.at(len);
        if self.state_masks.len() <= len {
            resize_with_empty(&mut self.state_masks, len + 1);
        }
        let state_mask = self.state_masks[len].union(TrieMask::from_nibble(extra_digit));
        self.state_masks[len] = state_mask;
        let len_from: usize = if branching {
            len + 1
        } else {
            len
        };
        let ghost stack0 = self.stack@;
        let ghost all = level_branches(levels).union_prefer_right(subtrie(g, path.len()).stored);
        proof {
            assert forall|i: int| #![trigger g[i]] 0 <= i < g.len() implies g[i].key.len() > len
                && g[i].key[len as int] == extra_digit by {
                assert(g[i].key.take(path.len() as int)[len as int] == path[len as int]);
            }
            if !build_extensions {
                assert(g[0].key == path);
            }
            lemma_depth(g, path, len_from as nat);
            if levels.len() == len + 1 {
                assert(levels[len as int] == levels.last());
            }
            lemma_place(levels, len as nat, g, extra_digit);
            lemma_set_bit(
                level_fan(levels, len as int).state_mask,
                extra_digit,
                extra_digit,
            );
        }
        self.fold(current, len_from, build_extensions, Ghost(levels), Ghost(g));
        proof {
            lemma_updates_kept(
                self.updated_branch_nodes,
                stack0,
                self.stack@,
                self.inbox@,
                self.inbox@,
                self.history@.reports,
                self.history@.reports,
                retained,
                all,
            );
            let placed = place(levels, len as nat, g);
            if branching {
                assert(state_masks_are(self.state_masks@, placed));
                assert(db_masks_are(
                    self.tree_masks@,
                    self.hash_masks@,
                    placed,
                    0,
                    0,
                    false,
                    false,
                ));
            } else {
                assert(all =~= subtrie(g, 0).stored);
            }
        }
    }

    /// Closes the branch at level `len`, the last one: the children of the branch are taken off
    /// the stack, and the branch takes their place.
    #[verifier::rlimit(40)]
    fn close_branch(
        &mut self,
        current: &Nibbles,
        len: usize,
        Ghost(levels): Ghost<Seq<Seq<Item>>>,
        Ghost(g): Ghost<Seq<Item>>,
    )
        requires
            current.wf(),
            len < current@.len(),
            levels.len() == len + 1,
            levels_off(levels, current@),
            levels.last().len() > 0,
            g.len() > 0,
            all_start_with(g, current@),
            old(self).levels_are(place(levels, len as nat, g)),
            old(self).history@.retained is Some ==> !old(
                self,
            ).history@.retained->Some_0.dropped.contains(current@.take(len as int)),
        ensures
            final(self).hangs(
                current@.take(len as int),
                levels.take(final(self).state_masks@.len() as int),
                levels.last() + g,
                true,
            ),
            flat(levels.take(final(self).state_masks@.len() as int)) + (levels.last() + g) == flat(
                levels,
            ) + g,
            final(self).state_masks@.len() <= len,
            old(self).history@.retained is None ==> {
                &&& final(self).inbox@ == old(self).inbox@
                &&& final(self).history@.reports == old(self).history@.reports
                &&& forall|slot: usize| #[trigger]
                    any_mentions(final(self).stack@, slot) ==> any_mentions(
                        old(self).stack@,
                        slot,
                    )
            },
            final(self).history@.words == old(self).history@.words,
            final(self).history@.levels == old(self).history@.levels,
            final(self).history@.retained == old(self).history@.retained,
            final(self).key == old(self).key,
            final(self).value == old(self).value,
            final(self).stored_in_database == old(self).stored_in_database,
    {
        let ghost path = current@;
        let ghost below = path.take(len as int);
        let ghost retained = self.history@.retained;
        let ghost placed = place(levels, len as nat, g);
        let ghost a = levels.last();
        let ghost merged = a + g;
        let ghost rest = levels.drop_last();
        let ghost f = level_fan(placed, len as int);
        let ghost lower = level_forms(rest, self.base());
        let ghost forms = fan_forms(merged, len as nat, 16, lower);
        let ghost all = level_branches(placed);
        let ghost top = subtrie(merged, len as nat);
        proof {
            assert(levels[len as int] == a);
            assert(placed.last() == merged);
            assert(placed.drop_last() =~= rest);
            assert(placed[len as int] == merged);
            lemma_fan_masks(merged, len as nat, 16);
            lemma_fan_forms(merged, len as nat, 16, lower);
            lemma_start_with_shorter(g, path, len as int);
            assert forall|i: int| #![trigger g[i]] 0 <= i < g.len() implies g[i].key.len() > len
                && g[i].key[len as int] == path[len as int] by {
                assert(g[i].key.take(path.len() as int)[len as int] == path[len as int]);
            }
            lemma_branch(a, g, below, path[len as int]);
            lemma_fan_append(a, g, len as nat, path[len as int]);
            assert(f == fan(a, len as nat, 16).with_child(
                path[len as int],
                subtrie(g, len as nat + 1),
            ));
        }
        let ghost stack1 = self.stack@;
        let ghost inbox1 = self.inbox@;
        let ghost reports1 = self.history@.reports;
        let slot = self.push_branch_node(len, Ghost(lower), Ghost(forms), Ghost(f));
        proof {
            lemma_updates_kept(
                self.updated_branch_nodes,
                stack1,
                self.stack@,
                inbox1,
                self.inbox@,
                reports1,
                self.history@.reports,
                retained,
                all,
            );
        }
        proof {
            lemma_form_rlps_from(lower + forms, lower.len());
            assert((lower + forms).skip(lower.len() as int) =~= forms);
            assert forall|i: int| 0 <= i < lower.len() implies is_full(#[trigger] lower[i]) by {
                assert(lower[i] == (lower + forms)[i]);
            }
            assert(is_full(f.form(lower, forms)));
            lemma_full_push(lower, f.form(lower, forms));
        }
        self.store_branch_node(current, len, slot, Ghost(f), Ghost(all));
        resize_with_empty(&mut self.state_masks, len);
        self.resize_masks(len);
        let ghost masks0 = self.state_masks@;
        proof {
            let in_db = f.tree_mask != 0 || f.hash_mask != 0;
            assert(level_branches(rest).union_prefer_right(top.stored) =~= if in_db {
                all.insert(below, f.branch(below))
            } else {
                all
            });
            assert forall|i: int| 0 <= i < len implies #[trigger] level_fan(rest, i) == level_fan(
                placed,
                i,
            ) by {
                assert(rest[i] == placed[i]);
            }
            lemma_levels_off_shorter(rest, path, len as int);
        }
        pop_empty(&mut self.state_masks);
        proof {
            let n = self.state_masks@.len();
            assert forall|i: int| 0 <= i < rest.len() implies (#[trigger] level_fan(
                rest,
                i,
            )).state_mask == masks0[i].bits by {}
            lemma_trim(rest, below, n);
            assert(rest.take(n as int) =~= levels.take(n as int));
            assert(flat(levels) == flat(rest) + a);
            assert(flat(rest) + merged =~= flat(levels) + g);
            assert forall|i: int| #![trigger merged[i]] 0 <= i < merged.len() implies
                merged[i].key.len() >= below.len() && merged[i].key.take(below.len() as int)
                == below by {
                if i < a.len() {
                    assert(merged[i] == a[i]);
                } else {
                    assert(merged[i] == g[i - a.len()]);
                }
            }
        }
    }

    /// Folds the last item into the trie, and closes every branch that `succeeding` does not lie
    /// below. Where `succeeding` is empty all branches are closed, so that the top of the stack is
    /// the root of the trie.
    #[verifier::rlimit(90)]
    pub(super) fn update(&mut self, succeeding: &Nibbles)
        requires
            old(self).wf(),
            old(self).key@.len() > 0,
            succeeding.wf(),
            succeeding@.len() == 0 || follows(old(self).key@, succeeding@),
        ensures
            succeeding@.len() > 0 ==> {
                let items = old(self)@.items;
                let path = succeeding@;
                &&& final(self).holds(path)
                &&& flat(final(self).history@.levels) == items
                &&& node_forms(final(self).stack@) == stack_off(old(self)@.words, items, path)
                &&& mask_bits(final(self).state_masks@) == state_masks_off(items, path)
                &&& mask_bits(final(self).tree_masks@) == tree_masks_off(items, path)
                &&& mask_bits(final(self).hash_masks@) == hash_masks_off(items, path)
                &&& final(self).state_masks@.len() == lcp(old(self).key@, path) + 1
                &&& has_bit(
                    final(self).state_masks@.last().bits,
                    old(self).key@[lcp(old(self).key@, path) as int],
                )
                &&& final(self).stack@.len() == old(self)@.words.len() + total_bits(
                    mask_bits(final(self).state_masks@),
                )
            },
            succeeding@.len() == 0 ==> {
                let items = old(self)@.items;
                &&& final(self).closed_with(items)
                &&& node_forms(final(self).stack@) == word_forms(old(self)@.words).push(
                    trie_form(items, 0, word_forms(old(self)@.words)),
                )
                &&& final(self).stack@.len() == old(self)@.words.len() + 1
                &&& reference_hash(form_rlp(node_form(final(self).stack@.last()))) == trie_root(
                    items,
                )
                &&& final(self).state_masks@.len() == 0
                &&& final(self).tree_masks@.len() == 0
                &&& final(self).hash_masks@.len() == 0
            },
            old(self).updated_branch_nodes is None ==> {
                &&& final(self).updated_branch_nodes is None
                &&& final(self).inbox@ == old(self).inbox@
                &&& final(self).history@.reports == old(self).history@.reports
                &&& forall|slot: usize| #[trigger]
                    any_mentions(final(self).stack@, slot) ==> any_mentions(
                        old(self).stack@,
                        slot,
                    )
            },
            final(self).history@.words == old(self).history@.words,
            final(self).history@.retained == old(self).history@.retained,
            final(self).key == old(self).key,
            final(self).value == old(self).value,
            final(self).stored_in_database == old(self).stored_in_database,
    {
        let ghost items = self@.items;
        let ghost words = self.history@.words;
        let ghost retained = self.history@.retained;
        let ghost key = self.key@;
        let ghost mut levels = self.history@.levels;
        let ghost earlier = flat(levels);
        let ghost mut g = seq![self.last_item()];
        let mut build_extensions: bool = false;
        let mut current = self.key.clone();
        proof {
            lemma_branches_leave(levels, key);
            assert(key.take(key.len() as int) =~= key);
            assert(flat(levels) + g =~= items);
            assert(items.drop_last() =~= earlier);
            assert(items.last() == self.last_item());
            if levels.len() > 0 {
                lemma_last_leaves(levels, key);
            }
            assert(level_branches(levels).union_prefer_right(subtrie(g, key.len()).stored)
                =~= level_branches(levels));
            if succeeding@.len() > 0 {
                lemma_lcp(key, succeeding@);
            }
        }
        loop
            invariant
                succeeding.wf(),
                succeeding@.len() == 0 || follows(key, succeeding@),
                self.key == old(self).key,
                self.value == old(self).value,
                self.stored_in_database == old(self).stored_in_database,
                self.history@.words == words,
                words == old(self).history@.words,
                self.history@.retained == retained,
                retained == old(self).history@.retained,
                key == self.key@,
                items == old(self)@.items,
                current.wf(),
                0 < current@.len() <= key.len(),
                current@ == key.take(current@.len() as int),
                succeeding@.len() > 0 ==> lcp(key, succeeding@) < current@.len(),
                self.hangs(current@, levels, g, build_extensions),
                flat(levels) + g == items,
                items.len() > 0,
                items.drop_last() == earlier,
                items.last().key == key,
                items.last().value is Hash <==> self.value is Hash,
                !build_extensions ==> {
                    &&& flat(levels) == earlier
                    &&& self.tree_masks@.len() == mask_count(earlier, key)
                    &&& levels.len() > 0 ==> lcp(earlier.last().key, key) == levels.len() - 1
                    &&& levels.len() == 0 ==> earlier.len() == 0
                },
                build_extensions && succeeding@.len() > 0 ==> earlier.len() > 0 && lcp(
                    earlier.last().key,
                    key,
                ) > lcp(key, succeeding@),
                old(self).updated_branch_nodes is None ==> retained is None,
                retained is None ==> {
                    &&& self.inbox@ == old(self).inbox@
                    &&& self.history@.reports == old(self).history@.reports
                    &&& forall|slot: usize| #[trigger]
                        any_mentions(self.stack@, slot) ==> any_mentions(old(self).stack@, slot)
                },
                retained is Some ==> forall|len: int|
                    0 <= len <= key.len() ==> !retained->Some_0.dropped.contains(
                        #[trigger] key.take(len),
                    ),
            decreases current@.len(),
        {
            let ghost path = current@;
            let preceding_exists: bool = self.state_masks.len() > 0;
            let preceding_len: usize = if preceding_exists {
                self.state_masks.len() - 1
            } else {
                0
            };
            let common_prefix_len: usize = succeeding.common_prefix_length(&current);
            let len: usize = if preceding_len > common_prefix_len {
                preceding_len
            } else {
                common_prefix_len
            };
            proof {
                lemma_next_leaves(key, path, succeeding@);
            }
            let branching: bool = !succeeding.is_empty() || preceding_exists;
            self.add_to_level(
                &current,
                len,
                branching,
                build_extensions,
                Ghost(levels),
                Ghost(g),
            );
            if !branching {
                assert(flat(levels) + g =~= g);
                resize_with_empty(&mut self.state_masks, 0);
                self.resize_masks(0);
                proof {
                    self.lemma_closed(items);
                }
                return ;
            }
            let ghost placed = place(levels, len as nat, g);
            if preceding_len <= common_prefix_len && !succeeding.is_empty() {
                proof {
                    lemma_levels_off_next(levels, path, succeeding@, len as nat, g);
                }
                self.history = Ghost(
                    History {
                        words,
                        levels: placed,
                        reports: self.history@.reports,
                        retained,
                    },
                );
                proof {
                    self.lemma_folded(succeeding@);
                    lemma_level_bits(placed, mask_bits(self.state_masks@), self.base());
                    assert(level_fan(placed, len as int).state_mask
                        == self.state_masks@[len as int].bits);
                }
                return ;
            }
            assert(key.take(len as int) =~= path.take(len as int));
            assert(!build_extensions ==> earlier.len() > 0) by {
                if !build_extensions {
                    lemma_last_leaves(levels, path);
                }
            }
            self.close_branch(&current, len, Ghost(levels), Ghost(g));
            proof {
                g = levels.last() + g;
                levels = levels.take(self.state_masks@.len() as int);
            }
            if preceding_len == 0 {
                proof {
                    assert(levels =~= Seq::empty());
                    assert(flat(levels) + g =~= g);
                    let top = subtrie(items, 0);
                    assert(level_branches(levels).union_prefer_right(top.stored) =~= top.stored);
                    self.lemma_closed(items);
                }
                return ;
            }
            current.truncate(preceding_len);
            assert(current@ =~= path.take(len as int));
            build_extensions = true;
        }
    }
}

} // verus!
