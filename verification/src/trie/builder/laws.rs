//! What holds of the branches that a hash builder has finished.
use crate::crypto::keccak::keccak256_digest;
use crate::trie::builder::ParallelHashBuilder;
use crate::trie::builder::fields::{lemma_level_bits, total_bits};
use crate::trie::builder::model::{stack_off, state_masks_off, Retained};
use crate::trie::builder::update::{lemma_levels_off_next, lemma_next_leaves};
use crate::trie::kept::{
    below_path, flagged_below, forks, has_below, hash_at, kept_below, law_branches_go_by_the_keys,
    lemma_below_all, lemma_below_below, lemma_below_from, lemma_below_into, lemma_below_nibble,
    lemma_fan_stored, lemma_from_the_root, lemma_starts, lemma_stored_at,
};
use crate::trie::laws::{law_updates_are_the_branches, lemma_lcp_least};
use crate::trie::lemmas::{
    all_below, all_start_with, lemma_branch, lemma_depth, lemma_fan_append,
    lemma_start_with_shorter, lemma_stored_paths,
};
use crate::trie::levels::{
    flat, lemma_branches_leave, lemma_fan_has_bit, lemma_leaves_at, lemma_level_branches,
    lemma_level_forms, lemma_level_is, lemma_place, lemma_widen, level_branches, level_fan,
    levels_off, place, widen,
};
use crate::trie::mask::has_bit;
use crate::trie::model::{fan, shared_len, subtrie, trie_branches, with_nibble, Item, ItemValue};
use crate::trie::nibbles::{all_nibbles, follows, lcp, lemma_lcp, lemma_lcp_unique};
use crate::trie::proofs::{
    all_apart, all_follow, all_keys_nibbles, law_follows, law_root_commits_to_the_items, leads,
    lemma_below, lemma_follow_apart, stands_at, starts_with, ProofNode,
};
use vstd::prelude::*;

verus! {

/// Closing the last level keeps all branches that are there.
proof fn lemma_close_last(levels: Seq<Seq<Item>>, path: Seq<u8>, g: Seq<Item>)
    requires
        levels.len() > 0,
        levels.last().len() > 0,
        levels_off(levels, path),
        all_nibbles(path),
        g.len() > 0,
        all_start_with(g, path),
        g.len() == 1 ==> g[0].key == path,
        g.len() > 1 ==> shared_len(g) == path.len(),
    ensures
        ({
            let len = levels.len() - 1;
            let rest = levels.drop_last();
            let merged = levels.last() + g;
            &&& merged.len() > 1
            &&& shared_len(merged) == len
            &&& all_start_with(merged, path.take(len))
            &&& levels_off(rest, path.take(len))
            &&& flat(rest) + merged == flat(levels) + g
            &&& level_branches(levels).union_prefer_right(
                subtrie(g, path.len()).stored,
            ).submap_of(
                level_branches(rest).union_prefer_right(subtrie(merged, len as nat).stored),
            )
        }),
{
    let len = (levels.len() - 1) as nat;
    let rest = levels.drop_last();
    let a = levels.last();
    let merged = a + g;
    let digit = path[len as int];
    let below = path.take(len as int);
    let placed = place(levels, len, g);
    assert(levels[len as int] == a);
    assert forall|i: int| #![trigger g[i]] 0 <= i < g.len() implies g[i].key.len() > len
        && g[i].key[len as int] == digit by {
        assert(g[i].key.take(path.len() as int)[len as int] == path[len as int]);
    }
    lemma_start_with_shorter(g, path, len as int);
    lemma_depth(g, path, len + 1);
    lemma_place(levels, len, g, digit);
    assert(placed.last() == merged);
    assert(placed.drop_last() =~= rest);
    lemma_branch(a, g, below, digit);
    assert(flat(rest) + merged =~= flat(levels) + g);
    assert forall|i: int| #![trigger merged[i]] 0 <= i < merged.len() implies merged[i].key.len()
        >= below.len() && merged[i].key.take(below.len() as int) == below by {
        if i < a.len() {
            assert(merged[i] == a[i]);
        } else {
            assert(merged[i] == g[i - a.len()]);
        }
    }
    assert forall|i: int| #![trigger rest[i]] 0 <= i < rest.len() implies all_start_with(
        rest[i],
        below.take(i),
    ) && all_below(rest[i], i as nat, below[i]) by {
        assert(rest[i] == levels[i]);
        assert(below.take(i) =~= path.take(i));
    }
    let all = level_branches(levels).union_prefer_right(subtrie(g, path.len()).stored);
    assert(level_branches(placed) == all);
    lemma_branches_leave(levels, path);
    lemma_stored_paths(g, path);
    assert(!all.dom().contains(below));
    let after = level_branches(rest).union_prefer_right(subtrie(merged, len).stored);
    let f = fan(merged, len, 16);
    lemma_fan_append(a, g, len, digit);
    assert(all =~= level_branches(rest).union_prefer_right(f.stored));
    assert forall|q: Seq<u8>| #[trigger] all.dom().contains(q) implies after.dom().contains(q)
        && after[q] == all[q] by {
        assert(q != below);
    }
}

/// The levels as a later key sees them; no branch that was there is lost.
proof fn lemma_next_levels(
    levels: Seq<Seq<Item>>,
    path: Seq<u8>,
    g: Seq<Item>,
    next: Seq<u8>,
) -> (r: Seq<Seq<Item>>)
    requires
        levels_off(levels, path),
        all_nibbles(path),
        g.len() > 0,
        all_start_with(g, path),
        g.len() == 1 ==> g[0].key == path,
        g.len() > 1 ==> shared_len(g) == path.len(),
        follows(path, next),
    ensures
        levels_off(r, next),
        r.len() == lcp(path, next) + 1,
        flat(r) == flat(levels) + g,
        level_branches(levels).union_prefer_right(subtrie(g, path.len()).stored).submap_of(
            level_branches(r),
        ),
    decreases levels.len(),
{
    let common = lcp(path, next);
    lemma_lcp(path, next);
    assert(path.take(path.len() as int) =~= path);
    lemma_next_leaves(path, path, next);
    if levels.len() <= common + 1 {
        let digit = path[common as int];
        assert forall|i: int| #![trigger g[i]] 0 <= i < g.len() implies g[i].key.len() > common
            && g[i].key[common as int] == digit by {
            assert(g[i].key.take(path.len() as int)[common as int] == path[common as int]);
        }
        if levels.len() == common + 1 {
            assert(levels[common as int] == levels.last());
        }
        lemma_depth(g, path, common + 1);
        lemma_place(levels, common, g, digit);
        lemma_levels_off_next(levels, path, next, common, g);
        place(levels, common, g)
    } else {
        let rest = levels.drop_last();
        let len = levels.len() - 1;
        let all = level_branches(levels).union_prefer_right(subtrie(g, path.len()).stored);
        if levels.last().len() == 0 {
            lemma_drop_empty(levels, path);
            lemma_next_levels(rest, path, g, next)
        } else {
            lemma_close_last(levels, path, g);
            let merged = levels.last() + g;
            let below = path.take(len);
            assert forall|j: int| 0 <= j < common implies #[trigger] below[j] == next[j] by {
                assert(path[j] == next[j]);
            }
            lemma_lcp_unique(below, next, common);
            let r = lemma_next_levels(rest, below, merged, next);
            let middle = level_branches(rest).union_prefer_right(
                subtrie(merged, below.len()).stored,
            );
            vstd::map_lib::lemma_submap_of_trans(all, middle, level_branches(r));
            r
        }
    }
}

/// An empty last level holds nothing.
proof fn lemma_drop_empty(levels: Seq<Seq<Item>>, path: Seq<u8>)
    requires
        levels.len() > 0,
        levels.last().len() == 0,
        levels_off(levels, path),
    ensures
        levels_off(levels.drop_last(), path),
        flat(levels.drop_last()) == flat(levels),
        level_branches(levels.drop_last()) == level_branches(levels),
{
    let rest = levels.drop_last();
    assert(levels.last() =~= Seq::empty());
    assert(widen(rest, levels.len()) =~= levels);
    lemma_widen(rest, levels.len());
    assert forall|i: int| #![trigger rest[i]] 0 <= i < rest.len() implies all_start_with(
        rest[i],
        path.take(i),
    ) && all_below(rest[i], i as nat, path[i]) by {
        assert(rest[i] == levels[i]);
    }
}

/// The whole trie; no branch that was there is lost.
proof fn lemma_whole_trie(levels: Seq<Seq<Item>>, path: Seq<u8>, g: Seq<Item>)
    requires
        levels_off(levels, path),
        all_nibbles(path),
        g.len() > 0,
        all_start_with(g, path),
        g.len() == 1 ==> g[0].key == path,
        g.len() > 1 ==> shared_len(g) == path.len(),
    ensures
        level_branches(levels).union_prefer_right(subtrie(g, path.len()).stored).submap_of(
            trie_branches(flat(levels) + g),
        ),
    decreases levels.len(),
{
    let all = level_branches(levels).union_prefer_right(subtrie(g, path.len()).stored);
    let items = flat(levels) + g;
    if levels.len() == 0 {
        assert(items =~= g);
        lemma_depth(g, path, 0);
        assert(all =~= trie_branches(items));
    } else {
        let rest = levels.drop_last();
        if levels.last().len() == 0 {
            lemma_drop_empty(levels, path);
            lemma_whole_trie(rest, path, g);
        } else {
            lemma_close_last(levels, path, g);
            let len = levels.len() - 1;
            let merged = levels.last() + g;
            lemma_whole_trie(rest, path.take(len), merged);
            assert(flat(rest) + merged == items);
            let middle = level_branches(rest).union_prefer_right(
                subtrie(merged, path.take(len).len()).stored,
            );
            vstd::map_lib::lemma_submap_of_trans(all, middle, trie_branches(items));
        }
    }
}

/// The items below a path, in two parts.
proof fn lemma_below_add(a: Seq<Item>, b: Seq<Item>, path: Seq<u8>)
    ensures
        below_path(a + b, path) == below_path(a, path) + below_path(b, path),
    decreases b.len(),
{
    reveal_with_fuel(Seq::filter, 2);
    if b.len() == 0 {
        assert(a + b =~= a);
        assert(below_path(a, path) + below_path(b, path) =~= below_path(a, path));
    } else {
        lemma_below_add(a, b.drop_last(), path);
        assert((a + b).drop_last() =~= a + b.drop_last());
        assert(below_path(a + b, path) =~= below_path(a, path) + below_path(b, path));
    }
}

/// The items of one level are apart and of nibbles where all items are.
proof fn lemma_level_apart(levels: Seq<Seq<Item>>, i: int)
    requires
        all_apart(flat(levels)),
        all_keys_nibbles(flat(levels)),
        0 <= i < levels.len(),
    ensures
        all_apart(levels[i]),
        all_keys_nibbles(levels[i]),
    decreases levels.len(),
{
    let rest = levels.drop_last();
    let lower = flat(rest);
    let all = flat(levels);
    if i == levels.len() - 1 {
        let top = levels[i];
        assert forall|k: int| #![trigger top[k]] 0 <= k < top.len() implies all_nibbles(
            top[k].key,
        ) by {
            assert(all[lower.len() + k] == top[k]);
        }
        assert forall|a: int, b: int|
            #![trigger top[a], top[b]]
            0 <= a < top.len() && 0 <= b < top.len() && a != b implies lcp(top[a].key, top[b].key)
            < top[a].key.len() && lcp(top[a].key, top[b].key) < top[b].key.len() by {
            assert(all[lower.len() + a] == top[a] && all[lower.len() + b] == top[b]);
        }
    } else {
        assert forall|k: int| #![trigger lower[k]] 0 <= k < lower.len() implies all_nibbles(
            lower[k].key,
        ) by {
            assert(all[k] == lower[k]);
        }
        assert forall|a: int, b: int|
            #![trigger lower[a], lower[b]]
            0 <= a < lower.len() && 0 <= b < lower.len() && a != b implies lcp(
            lower[a].key,
            lower[b].key,
        ) < lower[a].key.len() && lcp(lower[a].key, lower[b].key) < lower[b].key.len() by {
            assert(all[a] == lower[a] && all[b] == lower[b]);
        }
        lemma_level_apart(rest, i);
        assert(rest[i] == levels[i]);
    }
}

/// What starts with a path that leaves another one leaves that one where the path does.
proof fn lemma_leaves_with(key: Seq<u8>, q: Seq<u8>, path: Seq<u8>)
    requires
        starts_with(key, q),
        lcp(q, path) < q.len(),
        lcp(q, path) < path.len(),
    ensures
        lcp(key, path) == lcp(q, path),
{
    let i = lcp(q, path);
    lemma_lcp(q, path);
    assert forall|j: int| 0 <= j < i implies #[trigger] key[j] == path[j] by {
        assert(key.take(q.len() as int)[j] == q[j]);
        assert(q[j] == path[j]);
    }
    assert(key.take(q.len() as int)[i as int] == q[i as int]);
    lemma_lcp_unique(key, path, i);
}

/// The items below a path that leaves another one are in the level where it does.
proof fn lemma_below_level(levels: Seq<Seq<Item>>, path: Seq<u8>, q: Seq<u8>)
    requires
        levels_off(levels, path),
        lcp(q, path) < q.len(),
        lcp(q, path) < path.len(),
    ensures
        below_path(flat(levels), q) == if lcp(q, path) < levels.len() {
            below_path(levels[lcp(q, path) as int], q)
        } else {
            Seq::empty()
        },
    decreases levels.len(),
{
    let i = lcp(q, path) as int;
    if levels.len() == 0 {
        reveal_with_fuel(Seq::filter, 1);
        assert(below_path(flat(levels), q) =~= Seq::empty());
    } else {
        let rest = levels.drop_last();
        let last = levels.len() - 1;
        let top = levels.last();
        assert forall|k: int| #![trigger rest[k]] 0 <= k < rest.len() implies all_start_with(
            rest[k],
            path.take(k),
        ) && all_below(rest[k], k as nat, path[k]) by {
            assert(rest[k] == levels[k]);
        }
        lemma_below_level(rest, path, q);
        lemma_below_add(flat(rest), top, q);
        assert(levels[last] == top);
        if i != last && below_path(top, q).len() > 0 {
            let j = lemma_below_from(top, q, 0);
            lemma_leaves_at(top, path, last, j);
            lemma_leaves_with(top[j].key, q, path);
        }
        if i == last {
            assert(below_path(flat(levels), q) =~= below_path(levels[i], q));
        } else if i < last {
            assert(rest[i] == levels[i]);
            assert(below_path(flat(levels), q) =~= below_path(levels[i], q));
        } else {
            assert(below_path(flat(levels), q) =~= Seq::empty());
        }
    }
}

/// The branches of a level are among those of all levels.
proof fn lemma_level_kept(levels: Seq<Seq<Item>>, i: int, q: Seq<u8>)
    requires
        0 <= i < levels.len(),
        fan(levels[i], i as nat, 16).stored.dom().contains(q),
    ensures
        level_branches(levels).dom().contains(q),
    decreases levels.len(),
{
    if i < levels.len() - 1 {
        assert(levels.drop_last()[i] == levels[i]);
        lemma_level_kept(levels.drop_last(), i, q);
    }
}

impl ParallelHashBuilder {
    /// A branch that is complete stays as it is, whatever item comes next: it is complete, and the
    /// same, when that item has been added.
    pub proof fn law_complete_branches_stay(&self, item: Item)
        requires
            self.wf(),
            self@.admits(item.key),
        ensures
            self@.complete().submap_of(self@.with_item(item).complete()),
    {
        self.lemma_complete();
        if self@.items.len() > 0 {
            let levels = self.history@.levels;
            let g = seq![self.last_item()];
            assert(all_start_with(g, self.key@)) by {
                assert(self.key@.take(self.key@.len() as int) =~= self.key@);
            }
            let r = lemma_next_levels(levels, self.key@, g, item.key);
            assert(flat(levels) + g =~= self@.items);
            lemma_level_branches(r, item.key, item.key.len());
            assert(r.take(r.len() as int) =~= r);
            assert(self@.with_item(item).items.drop_last() =~= self@.items);
            assert(level_branches(levels).union_prefer_right(
                subtrie(g, self.key@.len()).stored,
            ) =~= level_branches(levels));
        }
    }

    /// When the items are folded and a key `next` comes that shares `c` nibbles with the last key,
    /// there are `c + 1` state masks; the bit of the last key is set in the last of them; and above
    /// the hashes that were added with an empty key there is one node on the stack for each bit of
    /// the state masks.
    #[verifier::rlimit(30)]
    pub proof fn law_counts_when_folded(&self, next: Seq<u8>)
        requires
            self.wf(),
            self@.items.len() > 0,
            follows(self@.key(), next),
        ensures
            ({
                let c = lcp(self@.key(), next);
                let masks = state_masks_off(self@.items, next);
                &&& masks.len() == c + 1
                &&& has_bit(masks.last(), self@.key()[c as int])
                &&& stack_off(self@.words, self@.items, next).len() == self@.words.len()
                    + total_bits(masks)
            }),
    {
        self.lemma_complete();
        let levels = self.history@.levels;
        let items = self@.items;
        let key = self.key@;
        let g = seq![self.last_item()];
        assert(all_start_with(g, key)) by {
            assert(key.take(key.len() as int) =~= key);
        }
        let r = lemma_next_levels(levels, key, g, next);
        assert(flat(levels) + g =~= items);
        let c = lcp(key, next);
        let masks = state_masks_off(items, next);
        lemma_lcp(key, next);
        assert forall|i: int| 0 <= i < masks.len() implies #[trigger] masks[i] == level_fan(
            r,
            i,
        ).state_mask by {
            lemma_level_is(r, next, i);
        }
        lemma_level_bits(r, masks, self.base());
        lemma_level_forms(r, next, next.len(), self.base());
        assert(r.take(r.len() as int) =~= r);
        lemma_level_is(r, next, c as int);
        let top = r[c as int];
        assert(items.last() == self.last_item());
        let pred = |item: Item| lcp(item.key, next) == c;
        assert(pred(items.last()));
        assert(top == items.filter(pred));
        reveal_with_fuel(Seq::filter, 2);
        assert(top.last() == items.last());
        lemma_fan_has_bit(top, c, top.len() - 1, 16);
    }

    /// A branch that is complete is one of the trie of the items so far.
    pub proof fn law_complete_branches_are_branches(&self)
        requires
            self.wf(),
            self@.items.len() > 0,
        ensures
            self@.complete().submap_of(trie_branches(self@.items)),
    {
        self.lemma_complete();
        let levels = self.history@.levels;
        let g = seq![self.last_item()];
        assert(all_start_with(g, self.key@)) by {
            assert(self.key@.take(self.key@.len() as int) =~= self.key@);
        }
        lemma_whole_trie(levels, self.key@, g);
        assert(flat(levels) + g =~= self@.items);
        assert(level_branches(levels).union_prefer_right(subtrie(g, self.key@.len()).stored)
            =~= level_branches(levels));
    }

    /// A builder takes an item where its key is alike the last one up to some position, both go on
    /// there, and the last one has the smaller nibble; and an empty builder takes every item whose
    /// key is not empty.
    pub proof fn law_admitted_keys(&self, key: Seq<u8>)
        requires
            self.wf(),
        ensures
            self@.items.len() == 0 ==> (self@.admits(key) <==> key.len() > 0),
            self@.items.len() > 0 ==> (self@.admits(key) <==> exists|k: int|
                0 <= k < self@.items.last().key.len() && k < key.len()
                    && #[trigger] self@.items.last().key.take(k) == key.take(k)
                    && self@.items.last().key[k] < key[k]),
    {
        if self@.items.len() > 0 {
            law_follows(self@.items.last().key, key);
        }
    }

    /// The items of a builder come in the order of their keys, and no key extends another. So its
    /// root commits to them: for every key a proof leads from the root to what was added with that
    /// key, or to nothing where nothing was.
    pub proof fn law_root_commits_to_what_was_added(
        &self,
        key: Seq<u8>,
        found: Option<ItemValue>,
    ) -> (r: (Seq<u8>, Seq<ProofNode>))
        requires
            self.wf(),
            self@.items.len() > 0,
            all_nibbles(key),
            stands_at(self@.items, key, found),
        ensures
            all_follow(self@.items),
            all_apart(self@.items),
            self@.root() == if r.0.len() == 33 {
                r.0.subrange(1, 33)
            } else {
                keccak256_digest(r.0)
            },
            leads(r.0, key, r.1, found),
    {
        lemma_follow_apart(self@.items);
        law_root_commits_to_the_items(self@.items, key, found)
    }

    /// The branches that are complete are those of the trie of the items so far that do not lie on
    /// the path of the last key.
    pub proof fn law_complete_branches_leave_the_last_key(&self, path: Seq<u8>)
        requires
            self.wf(),
            self@.items.len() > 0,
        ensures
            self@.complete().dom().contains(path) <==> trie_branches(self@.items).dom().contains(
                path,
            ) && !starts_with(self@.items.last().key, path),
            self@.complete().dom().contains(path) ==> self@.complete()[path] == trie_branches(
                self@.items,
            )[path],
    {
        self.lemma_complete();
        self.law_complete_branches_are_branches();
        let levels = self.history@.levels;
        let key = self.key@;
        let items = self@.items;
        let last = self.last_item();
        lemma_follow_apart(items);
        lemma_branches_leave(levels, key);
        assert(items == flat(levels).push(last));
        if self@.complete().dom().contains(path) && starts_with(key, path) {
            assert(key.take(path.len() as int) == path);
        }
        if trie_branches(items).dom().contains(path) && !starts_with(key, path) {
            let i = lcp(path, key);
            lemma_lcp(path, key);
            lemma_from_the_root(items, path);
            lemma_stored_at(items, 0, path);
            let g = below_path(items, path);
            if i == path.len() {
                assert(key.take(path.len() as int) =~= path);
            }
            if i == key.len() {
                // A key below the path would extend the last one.
                let end = items.len() - 1;
                let a = lemma_below_from(items, path, 0);
                assert(items[end] == last);
                assert(path.take(key.len() as int) =~= key);
                lemma_starts(items[a].key, path, key);
                lemma_lcp_least(items[a].key, key, key.len());
                if a == end {
                    assert(path.len() > key.len());
                }
                assert(items[a] == items[a]);
            }
            lemma_below_add(flat(levels), seq![last], path);
            assert(flat(levels) + seq![last] =~= items);
            assert(below_path(seq![last], path) =~= Seq::empty()) by {
                if below_path(seq![last], path).len() > 0 {
                    let j = lemma_below_from(seq![last], path, 0);
                    assert(seq![last][j] == last);
                }
            }
            assert(g =~= below_path(flat(levels), path));
            lemma_below_level(levels, key, path);
            let level = levels[i as int];
            let lower = key.take(i as int);
            let n = path[i as int];
            let all = flat(levels);
            assert(all_apart(all)) by {
                assert forall|a: int, b: int|
                    #![trigger all[a], all[b]]
                    0 <= a < all.len() && 0 <= b < all.len() && a != b implies lcp(
                    all[a].key,
                    all[b].key,
                ) < all[a].key.len() && lcp(all[a].key, all[b].key) < all[b].key.len() by {
                    assert(items[a] == all[a] && items[b] == all[b]);
                }
            }
            assert(all_keys_nibbles(all)) by {
                assert forall|a: int| #![trigger all[a]] 0 <= a < all.len() implies all_nibbles(
                    all[a].key,
                ) by {
                    assert(items[a] == all[a]);
                }
            }
            lemma_level_apart(levels, i as int);
            let first = lemma_below_from(level, path, 0);
            let y = with_nibble(level, i, n);
            assert(path.take(i as int) =~= lower);
            assert(path.take(i as int + 1) =~= lower.push(n));
            lemma_below_all(level, lower);
            lemma_below_nibble(level, lower, n);
            assert(y == below_path(level, lower.push(n)));
            lemma_below_below(level, lower.push(n), path);
            lemma_below(level, lower, n);
            lemma_starts(level[first].key, path, lower.push(n));
            let k = lemma_below_into(level, lower.push(n), first);
            assert(all_nibbles(y[k].key));
            assert(y[k].key.take(i as int + 1)[i as int] == n);
            lemma_stored_at(y, i + 1, path);
            lemma_fan_stored(level, lower, 16, path);
            lemma_level_kept(levels, i as int, path);
        }
    }

    /// Where branches were retained from the first item on, each of them is, when the root has
    /// been taken, where two keys part. Its masks say for each nibble whether keys go on with it,
    /// whether a retained branch or a subtree in the database lies behind it, and whether a branch
    /// or a hash is reached with it at once. Only the root carries the root hash.
    pub proof fn law_retained_branches_go_by_the_keys(&self, path: Seq<u8>, n: u8)
        requires
            self.wf(),
            self@.items.len() > 0,
            self@.retained == Some(Retained { earlier: Map::empty(), dropped: Set::empty() }),
            n < 16,
            self@.taken().updates().dom().contains(path),
        ensures
            ({
                let all = self@.taken().updates();
                let items = self@.items;
                &&& forks(items, path)
                &&& has_bit(all[path].state_mask, n) <==> has_below(items, path.push(n))
                &&& has_bit(all[path].tree_mask, n) <==> kept_below(all, path.push(n))
                    || flagged_below(items, path.push(n))
                &&& has_bit(all[path].hash_mask, n) <==> forks(items, path.push(n)) || hash_at(
                    items,
                    path.push(n),
                )
                &&& all[path].root_hash == if path.len() == 0 {
                    Some(self@.root())
                } else {
                    None
                }
            }),
    {
        lemma_follow_apart(self@.items);
        law_updates_are_the_branches(self@);
        law_branches_go_by_the_keys(self@.items, path);
    }
}

} // verus!
