//! Which branches of a trie are kept in the database, and what is kept of them, in terms of the
//! keys.
use crate::trie::laws::{lemma_all_share, lemma_lcp_least, lemma_masked_len};
use crate::trie::lemmas::{
    all_start_with, lemma_fan_masks, lemma_fan_paths, lemma_longest, lemma_shared_len,
    lemma_stored_paths, lemma_with_nibble_from, lemma_with_nibble_some,
};
use crate::trie::mask::{bits_below, has_bit};
use crate::trie::model::{
    fan, lemma_longest_with_nibble, room, shared_len, subtrie, trie_branches, trie_root,
    with_nibble, BranchModel, Item, ItemValue,
};
use crate::trie::nibbles::{all_nibbles, lcp, lemma_lcp};
use crate::trie::proofs::{
    all_apart, all_keys_nibbles, leads, lemma_below, lemma_children, lemma_keys_go_on, lemma_leads,
    lemma_subset_bit, stands_at, starts_with, ProofNode,
};
use crate::trie::rlp::{lemma_masked_prefix, masked_children};
use vstd::prelude::*;

verus! {

/// The items whose key starts with the path.
pub open spec fn below_path(items: Seq<Item>, path: Seq<u8>) -> Seq<Item> {
    items.filter(|item: Item| starts_with(item.key, path))
}

/// Whether a key starts with the path.
pub open spec fn has_below(items: Seq<Item>, path: Seq<u8>) -> bool {
    exists|i: int| 0 <= i < items.len() && starts_with((#[trigger] items[i]).key, path)
}

/// Whether a subtree is given by its hash at the end of the path.
pub open spec fn hash_at(items: Seq<Item>, path: Seq<u8>) -> bool {
    exists|i: int|
        0 <= i < items.len() && (#[trigger] items[i]).key == path && items[i].value is Hash
}

/// Whether an item is a subtree that is said to be stored in the database.
pub open spec fn is_flagged(item: Item) -> bool {
    item.value matches ItemValue::Hash(_, in_db) && in_db
}

/// Whether a subtree that is said to be stored in the database is given below the path.
pub open spec fn flagged_below(items: Seq<Item>, path: Seq<u8>) -> bool {
    exists|i: int|
        0 <= i < items.len() && starts_with((#[trigger] items[i]).key, path) && is_flagged(
            items[i],
        )
}

/// Whether two keys part at the end of the path.
pub open spec fn forks(items: Seq<Item>, path: Seq<u8>) -> bool {
    exists|i: int, j: int|
        0 <= i < items.len() && 0 <= j < items.len() && part_at(
            (#[trigger] items[i]).key,
            (#[trigger] items[j]).key,
            path,
        )
}

/// Whether the two keys start with the path and go on with different nibbles.
pub open spec fn part_at(a: Seq<u8>, b: Seq<u8>, path: Seq<u8>) -> bool {
    &&& starts_with(a, path)
    &&& starts_with(b, path)
    &&& a.len() > path.len()
    &&& b.len() > path.len()
    &&& a[path.len() as int] != b[path.len() as int]
}

/// Whether one of the branches is at the path or below it.
pub open spec fn kept_below(kept: Map<Seq<u8>, BranchModel>, path: Seq<u8>) -> bool {
    exists|q: Seq<u8>| #[trigger] kept.dom().contains(q) && starts_with(q, path)
}

/// What starts with a longer path starts with a shorter one.
pub proof fn lemma_starts(key: Seq<u8>, longer: Seq<u8>, path: Seq<u8>)
    requires
        starts_with(key, longer),
        starts_with(longer, path),
    ensures
        starts_with(key, path),
{
    assert(key.take(path.len() as int) =~= key.take(longer.len() as int).take(path.len() as int));
}

/// One nibble more.
proof fn lemma_starts_push(key: Seq<u8>, path: Seq<u8>, n: u8)
    ensures
        starts_with(key, path.push(n)) <==> starts_with(key, path) && key.len() > path.len()
            && key[path.len() as int] == n,
{
    let len = path.len() as int;
    if starts_with(key, path.push(n)) {
        assert(path.push(n).take(len) =~= path);
        lemma_starts(key, path.push(n), path);
        assert(key.take(len + 1)[len] == n);
    }
    if starts_with(key, path) && key.len() > len && key[len] == n {
        assert(key.take(len + 1) =~= key.take(len).push(n));
    }
}

/// The items of a longer path are among those of a shorter one.
pub proof fn lemma_below_below(items: Seq<Item>, path: Seq<u8>, longer: Seq<u8>)
    requires
        starts_with(longer, path),
    ensures
        below_path(below_path(items, path), longer) == below_path(items, longer),
    decreases items.len(),
{
    reveal_with_fuel(Seq::filter, 2);
    if items.len() > 0 {
        let rest = items.drop_last();
        lemma_below_below(rest, path, longer);
        let kept = below_path(rest, path);
        if starts_with(items.last().key, longer) {
            lemma_starts(items.last().key, longer, path);
        }
        if starts_with(items.last().key, path) {
            assert(kept.push(items.last()).drop_last() =~= kept);
        }
    }
}

/// The items of one nibble more.
pub proof fn lemma_below_nibble(items: Seq<Item>, path: Seq<u8>, n: u8)
    ensures
        with_nibble(below_path(items, path), path.len(), n) == below_path(items, path.push(n)),
    decreases items.len(),
{
    reveal_with_fuel(Seq::filter, 2);
    if items.len() > 0 {
        let rest = items.drop_last();
        lemma_below_nibble(rest, path, n);
        lemma_starts_push(items.last().key, path, n);
        let kept = below_path(rest, path);
        if starts_with(items.last().key, path) {
            assert(kept.push(items.last()).drop_last() =~= kept);
        }
    }
}

/// Where all keys start with the path, all items are below it.
pub proof fn lemma_below_all(items: Seq<Item>, path: Seq<u8>)
    requires
        all_start_with(items, path),
    ensures
        below_path(items, path) == items,
    decreases items.len(),
{
    reveal_with_fuel(Seq::filter, 2);
    if items.len() > 0 {
        let rest = items.drop_last();
        assert forall|i: int| #![trigger rest[i]] 0 <= i < rest.len() implies rest[i].key.len()
            >= path.len() && rest[i].key.take(path.len() as int) == path by {
            assert(rest[i] == items[i]);
        }
        lemma_below_all(rest, path);
        assert(items.last() == items[items.len() - 1]);
        assert(rest.push(items.last()) =~= items);
    }
}

/// An item below the path is one of the items.
pub proof fn lemma_below_from(items: Seq<Item>, path: Seq<u8>, i: int) -> (j: int)
    requires
        0 <= i < below_path(items, path).len(),
    ensures
        0 <= j < items.len(),
        items[j] == below_path(items, path)[i],
        starts_with(items[j].key, path),
    decreases items.len(),
{
    reveal_with_fuel(Seq::filter, 2);
    let rest = items.drop_last();
    if items.len() > 0 && i < below_path(rest, path).len() {
        lemma_below_from(rest, path, i)
    } else {
        items.len() - 1
    }
}

/// An item that starts with the path is below it.
pub proof fn lemma_below_into(items: Seq<Item>, path: Seq<u8>, j: int) -> (i: int)
    requires
        0 <= j < items.len(),
        starts_with(items[j].key, path),
    ensures
        0 <= i < below_path(items, path).len(),
        items[j] == below_path(items, path)[i],
    decreases items.len(),
{
    reveal_with_fuel(Seq::filter, 2);
    let rest = items.drop_last();
    if j < rest.len() {
        assert(rest[j] == items[j]);
        lemma_below_into(rest, path, j)
    } else {
        below_path(items, path).len() - 1
    }
}

/// The items below a path start with it, are apart and of nibbles.
pub proof fn lemma_below_path(items: Seq<Item>, path: Seq<u8>)
    requires
        all_apart(items),
        all_keys_nibbles(items),
    ensures
        all_start_with(below_path(items, path), path),
        all_apart(below_path(items, path)),
        all_keys_nibbles(below_path(items, path)),
{
    let g = below_path(items, path);
    assert forall|i: int| #![trigger g[i]] 0 <= i < g.len() implies g[i].key.len() >= path.len()
        && g[i].key.take(path.len() as int) == path && all_nibbles(g[i].key) by {
        let j = lemma_below_from(items, path, i);
        assert(items[j] == g[i]);
    }
    lemma_below_apart(items, path);
}

/// The items below a path are apart.
proof fn lemma_below_apart(items: Seq<Item>, path: Seq<u8>)
    requires
        all_apart(items),
    ensures
        all_apart(below_path(items, path)),
    decreases items.len(),
{
    reveal_with_fuel(Seq::filter, 2);
    if items.len() > 0 {
        let rest = items.drop_last();
        assert(all_apart(rest)) by {
            assert forall|i: int, j: int|
                #![trigger rest[i], rest[j]]
                0 <= i < rest.len() && 0 <= j < rest.len() && i != j implies lcp(
                rest[i].key,
                rest[j].key,
            ) < rest[i].key.len() && lcp(rest[i].key, rest[j].key) < rest[j].key.len() by {
                assert(rest[i] == items[i] && rest[j] == items[j]);
            }
        }
        lemma_below_apart(rest, path);
        let kept = below_path(rest, path);
        let all = below_path(items, path);
        let end = items.len() - 1;
        assert forall|i: int, j: int|
            #![trigger all[i], all[j]]
            0 <= i < all.len() && 0 <= j < all.len() && i != j implies lcp(all[i].key, all[j].key)
            < all[i].key.len() && lcp(all[i].key, all[j].key) < all[j].key.len() by {
            if i < kept.len() && j < kept.len() {
                assert(kept[i] == all[i] && kept[j] == all[j]);
            } else if i < kept.len() {
                let a = lemma_below_from(rest, path, i);
                assert(items[a] == all[i] && items[end] == all[j]);
            } else {
                let a = lemma_below_from(rest, path, j);
                assert(items[a] == all[j] && items[end] == all[i]);
            }
        }
    }
}

/// Two keys part at the end of a path where the keys below it share that much and no more.
proof fn lemma_forks(items: Seq<Item>, path: Seq<u8>)
    requires
        all_apart(items),
        all_keys_nibbles(items),
    ensures
        forks(items, path) <==> below_path(items, path).len() > 1 && shared_len(
            below_path(items, path),
        ) == path.len(),
{
    let g = below_path(items, path);
    let len = path.len();
    lemma_below_path(items, path);
    if forks(items, path) {
        let (i, j) = choose|i: int, j: int|
            0 <= i < items.len() && 0 <= j < items.len() && part_at(
                (#[trigger] items[i]).key,
                (#[trigger] items[j]).key,
                path,
            );
        let a = lemma_below_into(items, path, i);
        let b = lemma_below_into(items, path, j);
        assert(a != b);
        lemma_all_share(g, path);
        if shared_len(g) > len {
            lemma_shared_len(g, a);
            lemma_shared_len(g, b);
            let s = shared_len(g) as int;
            assert(g[a].key.take(s)[len as int] == g[b].key.take(s)[len as int]);
        }
    } else if g.len() > 1 && shared_len(g) == len {
        lemma_keys_go_on(g, 0);
        let n = g[0].key[len as int];
        assert forall|i: int| #![trigger g[i]] 0 <= i < g.len() implies g[i].key.len()
            >= path.push(n).len() && g[i].key.take(path.push(n).len() as int) == path.push(
            n,
        ) by {
            lemma_keys_go_on(g, i);
            let a = lemma_below_from(items, path, 0);
            let b = lemma_below_from(items, path, i);
            assert(!part_at(items[a].key, items[b].key, path));
            lemma_starts_push(g[i].key, path, n);
        }
        lemma_all_share(g, path.push(n));
    }
}

/// Below a branch, the kept branches of a child are those whose path goes through its nibble.
pub proof fn lemma_fan_stored(items: Seq<Item>, path: Seq<u8>, n: nat, q: Seq<u8>)
    requires
        n <= 16,
        items.len() > 0,
        all_start_with(items, path),
        all_apart(items),
        all_keys_nibbles(items),
        q.len() > path.len(),
    ensures
        ({
            let d = path.len();
            let below = with_nibble(items, d, q[d as int]);
            let f = fan(items, d, n);
            &&& f.stored.dom().contains(q) <==> q[d as int] < n && below.len() > 0 && subtrie(
                below,
                d + 1,
            ).stored.dom().contains(q)
            &&& f.stored.dom().contains(q) ==> f.stored[q] == subtrie(below, d + 1).stored[q]
        }),
    decreases n,
{
    let d = path.len();
    lemma_longest(items, 0);
    if n > 0 {
        let m = (n - 1) as u8;
        lemma_fan_stored(items, path, (n - 1) as nat, q);
        let child_items = with_nibble(items, d, m);
        if child_items.len() > 0 {
            lemma_below(items, path, m);
            lemma_stored_paths(child_items, path.push(m));
            let child = subtrie(child_items, d + 1);
            if child.stored.dom().contains(q) {
                assert(q.take(d as int + 1)[d as int] == m);
            }
        }
    }
}

/// Which branches a trie keeps, seen from depth `d`.
pub proof fn lemma_stored_at(items: Seq<Item>, d: nat, q: Seq<u8>)
    requires
        items.len() > 0,
        d <= q.len(),
        all_start_with(items, q.take(d as int)),
        all_apart(items),
        all_keys_nibbles(items),
    ensures
        ({
            let g = below_path(items, q);
            let f = fan(g, q.len(), 16);
            let stored = subtrie(items, d).stored;
            &&& stored.dom().contains(q) <==> g.len() > 1 && shared_len(g) == q.len() && (
            f.tree_mask != 0 || f.hash_mask != 0)
            &&& stored.dom().contains(q) ==> stored[q] == f.branch(q)
        }),
    decreases room(items, d),
{
    let g = below_path(items, q);
    let stored = subtrie(items, d).stored;
    if items.len() == 1 {
        if g.len() > 1 {
            let a = lemma_below_from(items, q, 0);
            let b = lemma_below_from(items, q, 1);
            lemma_below_path(items, q);
            assert(g[0] == g[1]);
            lemma_lcp(g[0].key, g[1].key);
            lemma_lcp_least(g[0].key, g[1].key, g[0].key.len());
        }
    } else {
        let c = shared_len(items);
        lemma_keys_go_on(items, 0);
        lemma_all_share(items, q.take(d as int));
        let longer = items[0].key.take(c as int);
        assert(all_start_with(items, longer)) by {
            assert forall|i: int| #![trigger items[i]] 0 <= i < items.len() implies
                items[i].key.len() >= longer.len() && items[i].key.take(longer.len() as int)
                == longer by {
                lemma_keys_go_on(items, i);
            }
        }
        lemma_fan_paths(items, longer, 16);
        let f = fan(items, c, 16);
        assert(longer.take(c as int) =~= longer);
        if q.len() <= c {
            assert(!f.stored.dom().contains(q));
            if starts_with(longer, q) {
                assert(all_start_with(items, q)) by {
                    assert forall|i: int| #![trigger items[i]] 0 <= i < items.len() implies
                        items[i].key.len() >= q.len() && items[i].key.take(q.len() as int)
                        == q by {
                        lemma_starts(items[i].key, longer, q);
                    }
                }
                lemma_below_all(items, q);
                if q.len() == c {
                    assert(q == longer);
                    assert(g == items);
                }
            } else {
                if g.len() > 0 {
                    let a = lemma_below_from(items, q, 0);
                    lemma_keys_go_on(items, a);
                    assert(longer.take(q.len() as int) =~= items[a].key.take(q.len() as int));
                }
            }
        } else if starts_with(q, longer) {
            let n = q[c as int];
            let below = with_nibble(items, c, n);
            lemma_fan_stored(items, longer, 16, q);
            lemma_below_all(items, longer);
            lemma_below_nibble(items, longer, n);
            assert(q.take(c as int + 1) =~= longer.push(n));
            assert(stored.dom().contains(q) == f.stored.dom().contains(q));
            assert(starts_with(q, longer.push(n)));
            lemma_below_below(items, longer.push(n), q);
            lemma_below(items, longer, n);
            lemma_longest_with_nibble(items, c, n);
            assert(below == below_path(items, longer.push(n)));
            assert(g == below_path(below, q));
            if below.len() > 0 {
                lemma_stored_at(below, c + 1, q);
                lemma_with_nibble_from(items, c, n, 0);
                let j = choose|j: int| 0 <= j < items.len() && items[j] == below[0];
                assert(all_nibbles(items[j].key));
                assert(n < 16);
            } else {
                assert(below =~= Seq::empty());
                reveal_with_fuel(Seq::filter, 1);
                assert(g =~= Seq::empty());
            }
        } else {
            if g.len() > 0 {
                let a = lemma_below_from(items, q, 0);
                lemma_keys_go_on(items, a);
                assert(q.take(c as int) =~= items[a].key.take(q.len() as int).take(c as int));
                assert(items[a].key.take(c as int) =~= items[a].key.take(q.len() as int).take(
                    c as int,
                ));
            }
        }
    }
}

/// A mask with a bit is not empty.
proof fn lemma_bit_of(mask: u16, n: u8)
    requires
        n < 16,
        has_bit(mask, n),
    ensures
        mask != 0,
{
    assert(0u16 & (1u16 << n) == 0) by (bit_vector);
}

/// A mask that is not empty has a bit.
proof fn lemma_some_bit(mask: u16) -> (n: u8)
    requires
        mask != 0,
    ensures
        n < 16,
        has_bit(mask, n),
{
    if forall|n: u8| n < 16 ==> !#[trigger] has_bit(mask, n) {
        assert(!has_bit(mask, 0) && !has_bit(mask, 1) && !has_bit(mask, 2) && !has_bit(mask, 3));
        assert(!has_bit(mask, 4) && !has_bit(mask, 5) && !has_bit(mask, 6) && !has_bit(mask, 7));
        assert(!has_bit(mask, 8) && !has_bit(mask, 9) && !has_bit(mask, 10) && !has_bit(mask, 11));
        assert(!has_bit(mask, 12) && !has_bit(mask, 13) && !has_bit(mask, 14) && !has_bit(
            mask,
            15,
        ));
        assert(mask == 0) by (bit_vector)
            requires
                mask & (1u16 << 0u8) == 0,
                mask & (1u16 << 1u8) == 0,
                mask & (1u16 << 2u8) == 0,
                mask & (1u16 << 3u8) == 0,
                mask & (1u16 << 4u8) == 0,
                mask & (1u16 << 5u8) == 0,
                mask & (1u16 << 6u8) == 0,
                mask & (1u16 << 7u8) == 0,
                mask & (1u16 << 8u8) == 0,
                mask & (1u16 << 9u8) == 0,
                mask & (1u16 << 10u8) == 0,
                mask & (1u16 << 11u8) == 0,
                mask & (1u16 << 12u8) == 0,
                mask & (1u16 << 13u8) == 0,
                mask & (1u16 << 14u8) == 0,
                mask & (1u16 << 15u8) == 0,
        ;
    }
    choose|n: u8| n < 16 && #[trigger] has_bit(mask, n)
}

/// A trie leads to a branch in the database where it keeps one, or where a subtree is said to be
/// stored there.
proof fn lemma_in_db(items: Seq<Item>, path: Seq<u8>)
    requires
        items.len() > 0,
        all_start_with(items, path),
        all_apart(items),
        all_keys_nibbles(items),
    ensures
        subtrie(items, path.len()).in_db <==> (exists|q: Seq<u8>| #[trigger]
            subtrie(items, path.len()).stored.dom().contains(q)) || (exists|i: int|
            0 <= i < items.len() && is_flagged(#[trigger] items[i])),
    decreases room(items, path.len()),
{
    let d = path.len();
    let top = subtrie(items, d);
    if items.len() == 1 {
        assert(is_flagged(items[0]) == top.in_db);
    } else {
        let c = shared_len(items);
        lemma_keys_go_on(items, 0);
        lemma_all_share(items, path);
        let longer = items[0].key.take(c as int);
        assert(all_start_with(items, longer)) by {
            assert forall|i: int| #![trigger items[i]] 0 <= i < items.len() implies
                items[i].key.len() >= longer.len() && items[i].key.take(longer.len() as int)
                == longer by {
                lemma_keys_go_on(items, i);
            }
        }
        lemma_fan_paths(items, longer, 16);
        let f = fan(items, c, 16);
        if top.in_db {
            assert(top.stored.dom().contains(longer));
        } else {
            assert forall|q: Seq<u8>| !#[trigger] top.stored.dom().contains(q) by {
                if top.stored.dom().contains(q) {
                    let n = q[c as int];
                    lemma_fan_stored(items, longer, 16, q);
                    lemma_below(items, longer, n);
                    lemma_longest_with_nibble(items, c, n);
                    lemma_in_db(with_nibble(items, c, n), longer.push(n));
                    lemma_children(items, c, 16, n);
                    lemma_bit_of(f.tree_mask, n);
                }
            }
            assert forall|i: int| 0 <= i < items.len() implies !is_flagged(#[trigger] items[i]) by {
                if is_flagged(items[i]) {
                    lemma_keys_go_on(items, i);
                    let n = items[i].key[c as int];
                    lemma_with_nibble_some(items, c, n, i);
                    lemma_below(items, longer, n);
                    lemma_longest_with_nibble(items, c, n);
                    let below = with_nibble(items, c, n);
                    lemma_in_db(below, longer.push(n));
                    lemma_children(items, c, 16, n);
                    lemma_below_all(items, longer);
                    lemma_below_nibble(items, longer, n);
                    lemma_starts_push(items[i].key, longer, n);
                    let k = lemma_below_into(items, longer.push(n), i);
                    assert(is_flagged(below[k]));
                    lemma_bit_of(f.tree_mask, n);
                }
            }
        }
    }
}

/// Every trie begins with an empty path.
pub proof fn lemma_from_the_root(items: Seq<Item>, q: Seq<u8>)
    ensures
        all_start_with(items, q.take(0)),
{
    assert forall|i: int| #![trigger items[i]] 0 <= i < items.len() implies items[i].key.take(0)
        == q.take(0) by {
        assert(items[i].key.take(0) =~= q.take(0));
    }
}

/// There are items below a path where a key starts with it.
proof fn lemma_has_below(items: Seq<Item>, path: Seq<u8>)
    ensures
        below_path(items, path).len() > 0 <==> has_below(items, path),
{
    if below_path(items, path).len() > 0 {
        let j = lemma_below_from(items, path, 0);
        assert(starts_with(items[j].key, path));
    }
    if has_below(items, path) {
        let j = choose|j: int| 0 <= j < items.len() && starts_with((#[trigger] items[j]).key, path);
        let k = lemma_below_into(items, path, j);
    }
}

/// The branches of the items below a path are those of the whole trie below that path.
proof fn lemma_kept_below(items: Seq<Item>, path: Seq<u8>, q: Seq<u8>)
    requires
        all_apart(items),
        all_keys_nibbles(items),
        items.len() > 0,
        below_path(items, path).len() > 0,
        starts_with(q, path),
    ensures
        trie_branches(items).dom().contains(q) <==> subtrie(
            below_path(items, path),
            path.len(),
        ).stored.dom().contains(q),
{
    lemma_from_the_root(items, q);
    lemma_stored_at(items, 0, q);
    lemma_below_path(items, path);
    lemma_stored_at(below_path(items, path), path.len(), q);
    lemma_below_below(items, path, q);
}

/// The trie below a path leads to a branch in the database where one is kept there, or a subtree
/// is said to be stored there.
proof fn lemma_child_in_db(items: Seq<Item>, path: Seq<u8>)
    requires
        all_apart(items),
        all_keys_nibbles(items),
        items.len() > 0,
    ensures
        below_path(items, path).len() > 0 && subtrie(below_path(items, path), path.len()).in_db
            <==> kept_below(trie_branches(items), path) || flagged_below(items, path),
{
    let x = below_path(items, path);
    let kept = trie_branches(items);
    let child = subtrie(x, path.len());
    lemma_below_path(items, path);
    if kept_below(kept, path) {
        let q = choose|q: Seq<u8>| #[trigger] kept.dom().contains(q) && starts_with(q, path);
        lemma_from_the_root(items, q);
        lemma_stored_at(items, 0, q);
        let j = lemma_below_from(items, q, 0);
        lemma_starts(items[j].key, q, path);
        let k = lemma_below_into(items, path, j);
        lemma_kept_below(items, path, q);
        assert(child.stored.dom().contains(q));
        lemma_in_db(x, path);
    }
    if flagged_below(items, path) {
        let j = choose|j: int|
            0 <= j < items.len() && starts_with((#[trigger] items[j]).key, path) && is_flagged(
                items[j],
            );
        let i = lemma_below_into(items, path, j);
        assert(is_flagged(x[i]));
        lemma_in_db(x, path);
    }
    if x.len() > 0 && child.in_db {
        lemma_in_db(x, path);
        lemma_stored_paths(x, path);
        if exists|q: Seq<u8>| #[trigger] child.stored.dom().contains(q) {
            let q = choose|q: Seq<u8>| #[trigger] child.stored.dom().contains(q);
            assert(starts_with(q, path));
            lemma_kept_below(items, path, q);
            assert(kept.dom().contains(q));
        } else {
            let i = choose|i: int| 0 <= i < x.len() && is_flagged(#[trigger] x[i]);
            let j = lemma_below_from(items, path, i);
            assert(is_flagged(items[j]));
        }
    }
}

/// The top of the trie below a path is a branch or a hash where two keys part there, or a subtree
/// is given there by its hash.
proof fn lemma_child_is_hash(items: Seq<Item>, path: Seq<u8>)
    requires
        all_apart(items),
        all_keys_nibbles(items),
    ensures
        below_path(items, path).len() > 0 && subtrie(below_path(items, path), path.len()).is_hash
            <==> forks(items, path) || hash_at(items, path),
{
    let x = below_path(items, path);
    lemma_below_path(items, path);
    lemma_forks(items, path);
    if hash_at(items, path) {
        let j = choose|j: int|
            0 <= j < items.len() && (#[trigger] items[j]).key == path && items[j].value is Hash;
        assert(path.take(path.len() as int) =~= path);
        let i = lemma_below_into(items, path, j);
        if x.len() > 1 {
            lemma_keys_go_on(x, i);
            lemma_all_share(x, path);
        }
        assert(x.len() == 1);
        assert(x[0] == items[j]);
    }
    if x.len() == 1 && x[0].value is Hash && x[0].key.len() == path.len() {
        let j = lemma_below_from(items, path, 0);
        assert(x[0].key.take(path.len() as int) =~= x[0].key);
        assert(items[j].key == path);
    }
    if x.len() > 1 {
        lemma_keys_go_on(x, 0);
        lemma_all_share(x, path);
    }
}

/// What the child of a branch at nibble `n` is, in terms of the keys.
proof fn lemma_child(items: Seq<Item>, path: Seq<u8>, n: u8)
    requires
        all_apart(items),
        all_keys_nibbles(items),
        items.len() > 0,
        n < 16,
        below_path(items, path).len() > 1,
        shared_len(below_path(items, path)) == path.len(),
    ensures
        ({
            let f = fan(below_path(items, path), path.len(), 16);
            &&& has_bit(f.state_mask, n) <==> has_below(items, path.push(n))
            &&& has_bit(f.tree_mask, n) <==> kept_below(trie_branches(items), path.push(n))
                || flagged_below(items, path.push(n))
            &&& has_bit(f.hash_mask, n) <==> forks(items, path.push(n)) || hash_at(
                items,
                path.push(n),
            )
            &&& has_bit(f.state_mask, n) ==> bits_below(f.state_mask, n as nat) < f.rlps.len()
                && f.rlps[bits_below(f.state_mask, n as nat) as int] == subtrie(
                below_path(items, path.push(n)),
                path.len() + 1,
            ).rlp
        }),
{
    let g = below_path(items, path);
    lemma_below_path(items, path);
    lemma_keys_go_on(g, 0);
    lemma_below_nibble(items, path, n);
    lemma_children(g, path.len(), 16, n);
    lemma_has_below(items, path.push(n));
    lemma_child_in_db(items, path.push(n));
    lemma_child_is_hash(items, path.push(n));
}

/// The branches that a trie keeps, in terms of the keys. A branch is where two keys part. Its state
/// mask has the nibbles with which keys go on; its tree mask those behind which a branch is kept,
/// or a subtree is said to be stored; its hash mask those with which another branch or the hash of
/// a subtree is reached at once. It is kept where one of the last two masks has a nibble. At the
/// root it carries the root of the trie, and nowhere else.
pub proof fn law_branches_go_by_the_keys(items: Seq<Item>, path: Seq<u8>)
    requires
        items.len() > 0,
        all_apart(items),
        all_keys_nibbles(items),
    ensures
        ({
            let kept = trie_branches(items);
            &&& kept.dom().contains(path) ==> {
                let branch = kept[path];
                &&& forall|n: u8|
                    n < 16 ==> (#[trigger] has_bit(branch.state_mask, n) <==> has_below(
                        items,
                        path.push(n),
                    ))
                &&& forall|n: u8|
                    n < 16 ==> (#[trigger] has_bit(branch.tree_mask, n) <==> kept_below(
                        kept,
                        path.push(n),
                    ) || flagged_below(items, path.push(n)))
                &&& forall|n: u8|
                    n < 16 ==> (#[trigger] has_bit(branch.hash_mask, n) <==> forks(
                        items,
                        path.push(n),
                    ) || hash_at(items, path.push(n)))
                &&& branch.root_hash == if path.len() == 0 {
                    Some(trie_root(items))
                } else {
                    None
                }
            }
            &&& kept.dom().contains(path) <==> forks(items, path) && exists|n: u8|
                n < 16 && (kept_below(kept, #[trigger] path.push(n)) || flagged_below(
                    items,
                    path.push(n),
                ) || forks(items, path.push(n)) || hash_at(items, path.push(n)))
        }),
{
    let kept = trie_branches(items);
    let g = below_path(items, path);
    let f = fan(g, path.len(), 16);
    lemma_from_the_root(items, path);
    lemma_stored_at(items, 0, path);
    lemma_forks(items, path);
    if forks(items, path) {
        assert forall|n: u8| n < 16 implies (#[trigger] has_bit(f.state_mask, n) <==> has_below(
            items,
            path.push(n),
        )) && (has_bit(f.tree_mask, n) <==> kept_below(kept, path.push(n)) || flagged_below(
            items,
            path.push(n),
        )) && (has_bit(f.hash_mask, n) <==> forks(items, path.push(n)) || hash_at(
            items,
            path.push(n),
        )) by {
            lemma_child(items, path, n);
        }
        if f.tree_mask != 0 {
            let n = lemma_some_bit(f.tree_mask);
            lemma_child(items, path, n);
            assert(path.push(n) == path.push(n));
        } else if f.hash_mask != 0 {
            let n = lemma_some_bit(f.hash_mask);
            lemma_child(items, path, n);
            assert(path.push(n) == path.push(n));
        } else {
            assert forall|n: u8| n < 16 implies !(kept_below(kept, #[trigger] path.push(n))
                || flagged_below(items, path.push(n)) || forks(items, path.push(n)) || hash_at(
                items,
                path.push(n),
            )) by {
                lemma_child(items, path, n);
                if has_bit(f.tree_mask, n) {
                    lemma_bit_of(f.tree_mask, n);
                }
                if has_bit(f.hash_mask, n) {
                    lemma_bit_of(f.hash_mask, n);
                }
            }
        }
        if path.len() == 0 && kept.dom().contains(path) {
            assert(all_start_with(items, path));
            lemma_below_all(items, path);
            lemma_keys_go_on(items, 0);
        }
        if kept.dom().contains(path) {
            let branch = kept[path];
            assert forall|n: u8| n < 16 implies (#[trigger] has_bit(branch.tree_mask, n)
                <==> kept_below(kept, path.push(n)) || flagged_below(items, path.push(n))) by {
                lemma_child(items, path, n);
            }
            assert forall|n: u8| n < 16 implies (#[trigger] has_bit(branch.hash_mask, n) <==> forks(
                items,
                path.push(n),
            ) || hash_at(items, path.push(n))) by {
                lemma_child(items, path, n);
            }
        }
    }
}

/// What a branch keeps of its hashed children: for each nibble of its hash mask, in their order,
/// the reference to the child, from which the rest of every key below leads to what the items have
/// there.
pub proof fn law_hashed_children_lead_on(
    items: Seq<Item>,
    path: Seq<u8>,
    n: u8,
    key: Seq<u8>,
    found: Option<ItemValue>,
) -> (r: Seq<ProofNode>)
    requires
        items.len() > 0,
        all_apart(items),
        all_keys_nibbles(items),
        trie_branches(items).dom().contains(path),
        n < 16,
        has_bit(trie_branches(items)[path].hash_mask, n),
        starts_with(key, path.push(n)),
        all_nibbles(key),
        stands_at(items, key, found),
    ensures
        ({
            let branch = trie_branches(items)[path];
            let k = bits_below(branch.hash_mask, n as nat) as int;
            &&& branch.hashed.len() == bits_below(branch.hash_mask, 16)
            &&& k < branch.hashed.len()
            &&& leads(branch.hashed[k], key.skip(path.len() as int + 1), r, found)
        }),
{
    let branch = trie_branches(items)[path];
    let g = below_path(items, path);
    let f = fan(g, path.len(), 16);
    let longer = path.push(n);
    let x = below_path(items, longer);
    lemma_from_the_root(items, path);
    lemma_stored_at(items, 0, path);
    lemma_child(items, path, n);
    lemma_child_is_hash(items, longer);
    lemma_below_path(items, longer);
    lemma_fan_masks(g, path.len(), 16);
    lemma_masked_len(f.rlps, f.state_mask, f.hash_mask, 16);
    lemma_masked_len(f.rlps, f.state_mask, f.hash_mask, n as nat);
    lemma_masked_prefix(f.rlps, f.state_mask, f.hash_mask, (n + 1) as nat, 16);
    assert(has_bit(f.state_mask, n)) by {
        if !has_bit(f.state_mask, n) {
            lemma_subset_bit(f.hash_mask, f.state_mask, n);
        }
    }
    let low = masked_children(f.rlps, f.state_mask, f.hash_mask, n as nat);
    let next = masked_children(f.rlps, f.state_mask, f.hash_mask, (n + 1) as nat);
    assert(next == low.push(f.rlps[bits_below(f.state_mask, n as nat) as int]));
    assert(branch.hashed[low.len() as int] == next[low.len() as int]);
    match found {
        Some(value) => {
            let it = Item { key, value };
            let at = choose|at: int| 0 <= at < items.len() && items[at] == it;
            let i = lemma_below_into(items, longer, at);
            assert(x[i] == it);
        },
        None => {
            assert forall|i: int| #![trigger x[i]] 0 <= i < x.len() implies x[i].key != key && (
            x[i].value is Hash ==> !starts_with(key, x[i].key)) by {
                let j = lemma_below_from(items, longer, i);
                assert(items[j] == x[i]);
            }
        },
    }
    assert(key.take(longer.len() as int) == longer);
    lemma_leads(x, longer.len(), key, found)
}

} // verus!
