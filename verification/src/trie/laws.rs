//! What holds of every trie.
use crate::trie::builder::model::{word_forms, BuilderModel, Retained};
use crate::trie::form::form_rlp;
use crate::trie::lemmas::{
    all_start_with, lemma_depth, lemma_fan_masks, lemma_form_rlp, lemma_longest, lemma_shared_len,
    lemma_shared_len_least, lemma_start_with_shorter, lemma_stored_paths, lemma_with_nibble_all,
    lemma_with_nibble_from, lemma_with_nibble_none,
};
use crate::trie::mask::{bits_below, is_subset};
use crate::trie::model::{
    fan, lemma_longest_with_nibble, longest, room, shared_len, subtrie, trie_branches, trie_form,
    trie_root, with_nibble, BranchModel, Item, ItemValue,
};
use crate::trie::nibbles::{all_nibbles, follows, lcp, lemma_lcp, lemma_lcp_unique};
use crate::trie::rlp::{masked_children, reference_hash, word_reference};
use vstd::prelude::*;

verus! {

/// Whether the masks and the hashed children of a branch at `path` fit together.
pub open spec fn consistent(path: Seq<u8>, branch: BranchModel) -> bool {
    &&& is_subset(branch.tree_mask, branch.state_mask)
    &&& is_subset(branch.hash_mask, branch.state_mask)
    &&& branch.tree_mask != 0 || branch.hash_mask != 0
    &&& branch.hashed.len() == bits_below(branch.hash_mask, 16)
    &&& branch.root_hash is Some <==> path.len() == 0
}

/// A branch that is kept in the database has a child that leads to another one, or is hashed; both
/// masks name only children that are there; each child of the hash mask has one reference; and
/// only the root carries its own hash.
pub proof fn law_branches_are_consistent(items: Seq<Item>, path: Seq<u8>)
    requires
        trie_branches(items).dom().contains(path),
    ensures
        consistent(path, trie_branches(items)[path]),
{
    lemma_stored_consistent(items, 0);
}

/// The references to the hashed children are as many as the bits of the hash mask.
pub proof fn lemma_masked_len(children: Seq<Seq<u8>>, state_mask: u16, hash_mask: u16, n: nat)
    requires
        n <= 16,
        is_subset(hash_mask, state_mask),
    ensures
        masked_children(children, state_mask, hash_mask, n).len() == bits_below(hash_mask, n),
    decreases n,
{
    if n > 0 {
        let m = (n - 1) as u8;
        lemma_masked_len(children, state_mask, hash_mask, (n - 1) as nat);
        assert(hash_mask & (1u16 << m) != 0 ==> state_mask & (1u16 << m) != 0) by (bit_vector)
            requires
                hash_mask & state_mask == hash_mask,
        ;
    }
}

/// The branches of a trie are consistent.
proof fn lemma_stored_consistent(items: Seq<Item>, d: nat)
    ensures
        forall|q: Seq<u8>| #[trigger]
            subtrie(items, d).stored.dom().contains(q) ==> consistent(
                q,
                subtrie(items, d).stored[q],
            ),
    decreases room(items, d), 2nat, 0nat,
{
    let c = shared_len(items);
    if items.len() != 1 && d <= c <= longest(items) {
        lemma_fan_consistent(items, c, 16);
        let f = fan(items, c, 16);
        lemma_fan_masks(items, c, 16);
        lemma_masked_len(f.rlps, f.state_mask, f.hash_mask, 16);
    }
}

/// The branches below a branch are consistent.
proof fn lemma_fan_consistent(items: Seq<Item>, d: nat, n: nat)
    ensures
        forall|q: Seq<u8>| #[trigger]
            fan(items, d, n).stored.dom().contains(q) ==> consistent(q, fan(items, d, n).stored[q]),
    decreases room(items, d), 1nat, n,
{
    if n > 0 && d <= longest(items) {
        let m = (n - 1) as u8;
        lemma_fan_consistent(items, d, (n - 1) as nat);
        let below = with_nibble(items, d, m);
        if below.len() > 0 {
            lemma_longest_with_nibble(items, d, m);
            lemma_stored_consistent(below, d + 1);
            let child = subtrie(below, d + 1);
            let rest = fan(items, d, (n - 1) as nat);
            let f = fan(items, d, n);
            assert(f == rest.with_child(m, child));
            assert forall|q: Seq<u8>| #[trigger] f.stored.dom().contains(q) implies consistent(
                q,
                f.stored[q],
            ) by {
                if child.stored.dom().contains(q) {
                    assert(f.stored[q] == child.stored[q]);
                } else {
                    assert(rest.stored.dom().contains(q));
                }
            }
        } else {
            assert(fan(items, d, n) == fan(items, d, (n - 1) as nat));
        }
    } else {
        assert(fan(items, d, n).stored == Map::<Seq<u8>, BranchModel>::empty());
    }
}

/// Taking the root settles what is retained: no branch is pending afterwards. Where branches were
/// retained from the first item on, and none before, those retained are the branches of the trie.
pub proof fn law_updates_are_the_branches(builder: BuilderModel)
    requires
        builder.retained is Some,
        builder.items.len() > 0,
    ensures
        builder.taken().pending() == Map::<Seq<u8>, BranchModel>::empty(),
        builder.retained == Some(Retained { earlier: Map::empty(), dropped: Set::empty() })
            ==> builder.taken().updates() == trie_branches(builder.items),
{
    let after = builder.taken();
    assert(after.pending() =~= Map::<Seq<u8>, BranchModel>::empty());
    if builder.retained == Some(Retained { earlier: Map::empty(), dropped: Set::empty() }) {
        assert(after.updates() =~= trie_branches(builder.items));
    }
}

/// Taking the root of items leaves nothing of them: no mask is open, no node is on the stack but
/// the hashes that were added with an empty key, and the value is empty.
pub proof fn law_root_clears(builder: BuilderModel)
    requires
        builder.items.len() > 0,
    ensures
        ({
            let after = builder.taken();
            &&& after.key() == Seq::<u8>::empty()
            &&& after.value == ItemValue::Leaf(Seq::empty())
            &&& after.stack() == word_forms(builder.words)
            &&& after.state_masks() == Seq::<u16>::empty()
            &&& after.tree_masks() == Seq::<u16>::empty()
            &&& after.hash_masks() == Seq::<u16>::empty()
        }),
{
    let after = builder.taken();
    assert(after.stack() =~= word_forms(builder.words));
    assert(after.state_masks() =~= Seq::<u16>::empty());
    assert(after.tree_masks() =~= Seq::<u16>::empty());
    assert(after.hash_masks() =~= Seq::<u16>::empty());
}

/// When all branches of the items are closed, one node is on the stack above the hashes that were
/// added with an empty key, and its hash is the root of the trie of the items.
pub proof fn law_closed_trie_is_one_node(words: Seq<Seq<u8>>, items: Seq<Item>)
    ensures
        ({
            let base = word_forms(words);
            let stack = base.push(trie_form(items, 0, base));
            &&& stack.len() == words.len() + 1
            &&& reference_hash(form_rlp(stack.last())) == trie_root(items)
        }),
{
    lemma_form_rlp(items, 0, word_forms(words));
}

/// Retaining branches does not change the root.
pub proof fn law_updates_leave_the_root(a: BuilderModel, b: BuilderModel)
    requires
        a.words == b.words,
        a.items == b.items,
    ensures
        a.root() == b.root(),
{
}

/// A key follows what comes before the keys that it follows.
pub proof fn lemma_follows_transitive(a: Seq<u8>, b: Seq<u8>, c: Seq<u8>)
    requires
        follows(a, b),
        follows(b, c),
    ensures
        follows(a, c),
{
    lemma_lcp(a, b);
    lemma_lcp(b, c);
    let p = lcp(a, b);
    let q = lcp(b, c);
    let k = if p < q {
        p
    } else {
        q
    };
    assert forall|j: int| 0 <= j < k implies #[trigger] a[j] == c[j] by {
        assert(a[j] == b[j]);
        assert(b[j] == c[j]);
    }
    if p < q {
        assert(b[p as int] == c[p as int]);
    } else if q < p {
        assert(a[q as int] == b[q as int]);
    }
    lemma_lcp_unique(a, c, k);
}

/// Where each key follows the one before it, each follows all that came before; so none occurs
/// twice, and none extends another. It is enough to compare a new key with the last one.
pub proof fn law_keys_follow_all_before(keys: Seq<Seq<u8>>, i: int, j: int)
    requires
        forall|k: int| 0 < k < keys.len() ==> follows(#[trigger] keys[k - 1], keys[k]),
        0 <= i < j < keys.len(),
    ensures
        follows(keys[i], keys[j]),
    decreases j,
{
    assert(follows(keys[j - 1], keys[j]));
    if i < j - 1 {
        law_keys_follow_all_before(keys, i, j - 1);
        lemma_follows_transitive(keys[i], keys[j - 1], keys[j]);
    }
}

/// Whether no key starts with `path`, and `path` starts with none of the keys.
pub open spec fn all_leave(items: Seq<Item>, path: Seq<u8>) -> bool {
    forall|i: int|
        #![trigger items[i]]
        0 <= i < items.len() ==> lcp(items[i].key, path) < path.len() && lcp(items[i].key, path)
            < items[i].key.len()
}

/// A subtree that its parent refers to by hash can be given by that hash: the items `g` below the
/// branch at `path` can be replaced by one item that holds the hash of the branch. The root stays
/// the same, whatever is said of the database; and where it is said rightly whether the subtree is
/// in the database, the branches of the whole trie are those of the smaller one and those of the
/// subtree.
pub proof fn law_hash_stands_for_subtree(
    before: Seq<Item>,
    g: Seq<Item>,
    after: Seq<Item>,
    path: Seq<u8>,
    hash: Seq<u8>,
    in_db: bool,
)
    requires
        g.len() > 1,
        all_start_with(g, path),
        shared_len(g) == path.len(),
        all_nibbles(path),
        all_leave(before, path),
        all_leave(after, path),
        subtrie(g, path.len()).rlp == word_reference(hash),
    ensures
        ({
            let top = subtrie(g, path.len());
            let item = Item { key: path, value: ItemValue::Hash(hash, in_db) };
            &&& trie_root(before + g + after) == trie_root(before + seq![item] + after)
            &&& in_db == top.in_db ==> trie_branches(before + g + after) == trie_branches(
                before + seq![item] + after,
            ).union_prefer_right(top.stored)
        }),
{
    let item = Item { key: path, value: ItemValue::Hash(hash, in_db) };
    let all = before + g + after;
    assert(path.take(0) =~= Seq::empty());
    assert forall|i: int| #![trigger all[i]] 0 <= i < all.len() implies all[i].key.take(0)
        == path.take(0) by {
        assert(all[i].key.take(0) =~= Seq::empty());
    }
    lemma_replace(before, g, after, path, item, 0);
}

/// Two keys that start alike share at least that much.
pub proof fn lemma_lcp_least(a: Seq<u8>, b: Seq<u8>, l: nat)
    requires
        l <= a.len(),
        l <= b.len(),
        a.take(l as int) == b.take(l as int),
    ensures
        lcp(a, b) >= l,
{
    lemma_lcp(a, b);
    let k = lcp(a, b) as int;
    if k < l {
        assert(a.take(l as int)[k] == a[k]);
        assert(b.take(l as int)[k] == b[k]);
    }
}

/// Keys that all start with a path share at least that path.
pub proof fn lemma_all_share(items: Seq<Item>, path: Seq<u8>)
    requires
        items.len() > 0,
        all_start_with(items, path),
    ensures
        shared_len(items) >= path.len(),
{
    assert forall|i: int| #![trigger items[i]] 0 <= i < items.len() implies lcp(
        items[0].key,
        items[i].key,
    ) >= path.len() by {
        lemma_lcp_least(items[0].key, items[i].key, path.len());
    }
    lemma_shared_len_least(items, path.len());
}

/// What a key that leaves `path` shares with keys below `path` is shorter than `path`; so the
/// shared prefix of all of them is one of `path`.
proof fn lemma_shared_on_path(items: Seq<Item>, path: Seq<u8>, i: int, k: int)
    requires
        0 <= i < items.len(),
        0 <= k < items.len(),
        items[k].key.len() >= path.len(),
        items[k].key.take(path.len() as int) == path,
        lcp(items[i].key, path) < path.len(),
        lcp(items[i].key, path) < items[i].key.len(),
    ensures
        shared_len(items) < path.len(),
        items.len() > 1,
        items[0].key.take(shared_len(items) as int) == path.take(shared_len(items) as int),
{
    let c = shared_len(items) as int;
    let a = items[i].key;
    let b = items[k].key;
    lemma_shared_len(items, i);
    lemma_shared_len(items, k);
    let l = lcp(a, path) as int;
    lemma_lcp(a, path);
    if c > l {
        assert(a.take(c)[l] == b.take(c)[l]);
        assert(b.take(path.len() as int)[l] == path[l]);
    }
    if i == k {
        assert(a.take(path.len() as int)[l] == path[l]);
    }
    assert(b.take(c) =~= b.take(path.len() as int).take(c));
}

/// The tries with and without the replacement, seen from depth `d`.
proof fn lemma_replace(
    before: Seq<Item>,
    g: Seq<Item>,
    after: Seq<Item>,
    path: Seq<u8>,
    item: Item,
    d: nat,
)
    requires
        d <= path.len(),
        all_start_with(before + g + after, path.take(d as int)),
        g.len() > 1,
        all_start_with(g, path),
        shared_len(g) == path.len(),
        all_nibbles(path),
        all_leave(before, path),
        all_leave(after, path),
        item.key == path,
        item.value matches ItemValue::Hash(hash, _) && subtrie(g, path.len()).rlp
            == word_reference(hash),
    ensures
        ({
            let whole = subtrie(before + g + after, d);
            let small = subtrie(before + seq![item] + after, d);
            &&& whole.rlp == small.rlp
            &&& whole.is_hash == small.is_hash
            &&& item.value->Hash_1 == subtrie(g, path.len()).in_db ==> {
                &&& whole.in_db == small.in_db
                &&& whole.stored == small.stored.union_prefer_right(subtrie(g, path.len()).stored)
            }
        }),
    decreases path.len() - d, 1nat, 0nat,
{
    let a = before + g + after;
    let b = before + seq![item] + after;
    let top = subtrie(g, path.len());
    let right = item.value->Hash_1 == top.in_db;
    if before.len() == 0 && after.len() == 0 {
        assert(a =~= g);
        assert(b =~= seq![item]);
        lemma_depth(g, path, d);
        if right {
            assert(subtrie(a, d).stored =~= subtrie(b, d).stored.union_prefer_right(top.stored));
        }
    } else {
        let p = before.len() as int;
        assert(a[p] == g[0]);
        assert(b[p] == item);
        assert(path.take(path.len() as int) =~= path);
        let (ia, ib) = if before.len() > 0 {
            assert(a[0] == before[0]);
            assert(b[0] == before[0]);
            (0int, 0int)
        } else {
            assert(a[p + g.len()] == after[0]);
            assert(b[p + 1] == after[0]);
            (p + g.len(), p + 1)
        };
        lemma_shared_on_path(a, path, ia, p);
        lemma_shared_on_path(b, path, ib, p);
        let c = shared_len(a);
        let cb = shared_len(b);
        assert(all_start_with(a, path.take(c as int))) by {
            assert forall|i: int| #![trigger a[i]] 0 <= i < a.len() implies a[i].key.len() >= c
                && a[i].key.take(c as int) == path.take(c as int) by {
                lemma_shared_len(a, i);
            }
        }
        assert(all_start_with(b, path.take(cb as int))) by {
            assert forall|i: int| #![trigger b[i]] 0 <= i < b.len() implies b[i].key.len() >= cb
                && b[i].key.take(cb as int) == path.take(cb as int) by {
                lemma_shared_len(b, i);
            }
        }
        assert(all_start_with(b, path.take(c as int))) by {
            assert forall|i: int| #![trigger b[i]] 0 <= i < b.len() implies b[i].key.len() >= c
                && b[i].key.take(c as int) == path.take(c as int) by {
                if i < p {
                    assert(b[i] == a[i]);
                } else if i > p {
                    assert(b[i] == a[i - 1 + g.len()]);
                }
            }
        }
        assert(all_start_with(a, path.take(cb as int))) by {
            lemma_start_with_shorter(g, path, cb as int);
            assert forall|i: int| #![trigger a[i]] 0 <= i < a.len() implies a[i].key.len() >= cb
                && a[i].key.take(cb as int) == path.take(cb as int) by {
                if i < p {
                    assert(a[i] == b[i]);
                } else if i >= p + g.len() {
                    assert(a[i] == b[i + 1 - g.len()]);
                } else {
                    assert(a[i] == g[i - p]);
                }
            }
        }
        lemma_all_share(b, path.take(c as int));
        lemma_all_share(a, path.take(cb as int));
        lemma_all_share(a, path.take(d as int));
        assert(c == cb);
        lemma_shared_len(a, 0);
        lemma_shared_len(b, 0);
        lemma_longest(a, 0);
        lemma_longest(b, 0);
        lemma_replace_fan(before, g, after, path, item, c, 16);
        lemma_stored_paths(g, path);
        let branch_path = path.take(c as int);
        assert(!top.stored.dom().contains(branch_path));
        if right {
            assert(subtrie(a, d).stored =~= subtrie(b, d).stored.union_prefer_right(top.stored));
        }
    }
}

/// The children with and without the replacement.
proof fn lemma_replace_fan(
    before: Seq<Item>,
    g: Seq<Item>,
    after: Seq<Item>,
    path: Seq<u8>,
    item: Item,
    c: nat,
    n: nat,
)
    requires
        n <= 16,
        c < path.len(),
        c <= longest(before + g + after),
        c <= longest(before + seq![item] + after),
        all_start_with(before + g + after, path.take(c as int)),
        g.len() > 1,
        all_start_with(g, path),
        shared_len(g) == path.len(),
        all_nibbles(path),
        all_leave(before, path),
        all_leave(after, path),
        item.key == path,
        item.value matches ItemValue::Hash(hash, _) && subtrie(g, path.len()).rlp
            == word_reference(hash),
    ensures
        ({
            let whole = fan(before + g + after, c, n);
            let small = fan(before + seq![item] + after, c, n);
            &&& whole.rlps == small.rlps
            &&& whole.state_mask == small.state_mask
            &&& whole.hash_mask == small.hash_mask
            &&& item.value->Hash_1 == subtrie(g, path.len()).in_db ==> {
                &&& whole.tree_mask == small.tree_mask
                &&& whole.stored == if n > path[c as int] {
                    small.stored.union_prefer_right(subtrie(g, path.len()).stored)
                } else {
                    small.stored
                }
            }
        }),
    decreases path.len() - c, 0nat, n,
{
    let a = before + g + after;
    let b = before + seq![item] + after;
    let stored = subtrie(g, path.len()).stored;
    let right = item.value->Hash_1 == subtrie(g, path.len()).in_db;
    if n > 0 {
        let m = (n - 1) as u8;
        lemma_replace_fan(before, g, after, path, item, c, (n - 1) as nat);
        let pred = |x: Item| x.key.len() > c && x.key[c as int] == m;
        Seq::filter_distributes_over_add(before + g, after, pred);
        Seq::filter_distributes_over_add(before, g, pred);
        Seq::filter_distributes_over_add(before + seq![item], after, pred);
        Seq::filter_distributes_over_add(before, seq![item], pred);
        let one = seq![item];
        assert forall|i: int| #![trigger g[i]] 0 <= i < g.len() implies g[i].key.len() > c
            && g[i].key[c as int] == path[c as int] by {
            assert(g[i].key.take(path.len() as int)[c as int] == path[c as int]);
        }
        let below_a = with_nibble(a, c, m);
        let below_b = with_nibble(b, c, m);
        let first = with_nibble(before, c, m);
        let last = with_nibble(after, c, m);
        assert(below_a == first + with_nibble(g, c, m) + last);
        assert(below_b == first + with_nibble(one, c, m) + last);
        let rest_a = fan(a, c, (n - 1) as nat);
        let rest_b = fan(b, c, (n - 1) as nat);
        assert forall|i: int| #![trigger below_a[i]] 0 <= i < below_a.len() implies
            below_a[i].key.len() > c && below_a[i].key.take(c as int + 1) == path.take(
            c as int,
        ).push(m) by {
            lemma_with_nibble_from(a, c, m, i);
            let j = choose|j: int| 0 <= j < a.len() && a[j] == below_a[i];
            assert(a[j].key.take(c as int) == path.take(c as int));
            assert(a[j].key.take(c as int + 1) =~= a[j].key.take(c as int).push(m));
        }
        if m == path[c as int] {
            lemma_with_nibble_all(g, c, m);
            lemma_with_nibble_all(one, c, m);
            lemma_leave_subset(before, path, c, m);
            lemma_leave_subset(after, path, c, m);
            assert(path.take(c as int).push(m) =~= path.take(c as int + 1));
            lemma_replace(first, g, last, path, item, c + 1);
            assert(below_a[first.len() as int] == g[0]);
            assert(below_b[first.len() as int] == item);
            if right {
                assert(fan(a, c, n).stored =~= fan(b, c, n).stored.union_prefer_right(stored));
            }
        } else {
            lemma_with_nibble_none(g, c, m);
            lemma_with_nibble_none(one, c, m);
            assert(below_a =~= below_b);
            if right && below_a.len() > 0 && n - 1 > path[c as int] {
                let longer = path.take(c as int).push(m);
                lemma_stored_paths(below_a, longer);
                lemma_stored_paths(g, path);
                let child = subtrie(below_a, c + 1).stored;
                assert forall|q: Seq<u8>| #[trigger] child.dom().contains(q) implies
                    !stored.dom().contains(q) by {
                    if stored.dom().contains(q) {
                        assert(q.take(longer.len() as int)[c as int] == m);
                        assert(q.take(path.len() as int)[c as int] == path[c as int]);
                    }
                }
                assert(fan(a, c, n).stored =~= fan(b, c, n).stored.union_prefer_right(stored));
            }
        }
    }
}

/// Among keys that leave a path, those with some nibble leave it too.
proof fn lemma_leave_subset(items: Seq<Item>, path: Seq<u8>, c: nat, m: u8)
    requires
        all_leave(items, path),
    ensures
        all_leave(with_nibble(items, c, m), path),
{
    let some = with_nibble(items, c, m);
    assert forall|i: int| #![trigger some[i]] 0 <= i < some.len() implies lcp(some[i].key, path)
        < path.len() && lcp(some[i].key, path) < some[i].key.len() by {
        lemma_with_nibble_from(items, c, m, i);
        let j = choose|j: int| 0 <= j < items.len() && items[j] == some[i];
        assert(items[j] == some[i]);
    }
}

} // verus!
