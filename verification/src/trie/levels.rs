//! The items of a trie sorted by where their keys leave a given path.
use crate::trie::form::NodeForm;
use crate::trie::lemmas::{
    all_at, all_below, all_start_with, lemma_fan_append, lemma_fan_empty, lemma_fan_forms_append,
    lemma_fan_forms_empty, lemma_fan_paths, lemma_longest, lemma_with_nibble_none,
    lemma_with_nibble_some, no_children,
};
use crate::trie::mask::{has_bit, lemma_set_bit};
use crate::trie::model::{fan, fan_forms, subtrie, trie_form, with_nibble, BranchModel, Fan, Item};
use crate::trie::nibbles::{lcp, lemma_lcp_unique};
use vstd::prelude::*;

verus! {

/// The items whose key shares exactly `i` nibbles with `path`.
pub open spec fn leaving_at(items: Seq<Item>, path: Seq<u8>, i: nat) -> Seq<Item> {
    items.filter(|item: Item| lcp(item.key, path) == i)
}

/// The branches, kept in the database, of the tries that leave `path` at a position below `n`.
pub open spec fn branches_off(items: Seq<Item>, path: Seq<u8>, n: nat) -> Map<
    Seq<u8>,
    BranchModel,
>
    decreases n,
{
    if n == 0 {
        Map::empty()
    } else {
        let i = (n - 1) as nat;
        branches_off(items, path, i).union_prefer_right(
            fan(leaving_at(items, path, i), i, 16).stored,
        )
    }
}

/// The stack with `base`, and above it the nodes of the tries that leave `path` at a position below
/// `n`, those that leave first in front.
pub open spec fn forms_off(
    items: Seq<Item>,
    path: Seq<u8>,
    n: nat,
    base: Seq<NodeForm>,
) -> Seq<NodeForm>
    decreases n,
{
    if n == 0 {
        base
    } else {
        let i = (n - 1) as nat;
        let lower = forms_off(items, path, i, base);
        lower + fan_forms(leaving_at(items, path, i), i, 16, lower)
    }
}

/// How many tree and hash masks there are when the items are folded and `next` is the key that
/// comes. Folding an item needs one for each nibble of its key. Those behind the position where
/// `next` leaves the key are given up where the item is put behind an extension: where it is a
/// hash that stands further down, or where a branch was closed.
pub open spec fn mask_count(items: Seq<Item>, next: Seq<u8>) -> nat
    decreases items.len(),
{
    if items.len() == 0 {
        0
    } else {
        let last = items.last();
        let rest = items.drop_last();
        let common = lcp(last.key, next);
        let before = mask_count(rest, last.key);
        if rest.len() > 0 && lcp(rest.last().key, last.key) > common {
            common + 1
        } else if last.value is Hash && last.key.len() > common + 1 {
            common + 1
        } else if before < last.key.len() {
            last.key.len()
        } else {
            before
        }
    }
}

/// All items, those that leave first in front.
pub open spec fn flat(levels: Seq<Seq<Item>>) -> Seq<Item>
    decreases levels.len(),
{
    if levels.len() == 0 {
        Seq::empty()
    } else {
        flat(levels.drop_last()) + levels.last()
    }
}

/// The stack with `base`, and above it the nodes that the items of the levels have, those of the
/// lowest level in front.
pub open spec fn level_forms(levels: Seq<Seq<Item>>, base: Seq<NodeForm>) -> Seq<NodeForm>
    decreases levels.len(),
{
    if levels.len() == 0 {
        base
    } else {
        let lower = level_forms(levels.drop_last(), base);
        lower + fan_forms(levels.last(), (levels.len() - 1) as nat, 16, lower)
    }
}

/// The branches of the levels that are kept in the database.
pub open spec fn level_branches(levels: Seq<Seq<Item>>) -> Map<Seq<u8>, BranchModel>
    decreases levels.len(),
{
    if levels.len() == 0 {
        Map::empty()
    } else {
        level_branches(levels.drop_last()).union_prefer_right(
            fan(levels.last(), (levels.len() - 1) as nat, 16).stored,
        )
    }
}

/// The children at level `i`.
pub open spec fn level_fan(levels: Seq<Seq<Item>>, i: int) -> Fan {
    if 0 <= i < levels.len() {
        fan(levels[i], i as nat, 16)
    } else {
        no_children()
    }
}

/// The items of level `i` leave `path` at position `i`, to a smaller nibble.
pub open spec fn levels_off(levels: Seq<Seq<Item>>, path: Seq<u8>) -> bool {
    &&& levels.len() <= path.len()
    &&& forall|i: int|
        #![trigger levels[i]]
        0 <= i < levels.len() ==> all_start_with(levels[i], path.take(i)) && all_below(
            levels[i],
            i as nat,
            path[i],
        )
}

/// The levels with the items `g` added at level `len`, which becomes the last one.
pub open spec fn place(levels: Seq<Seq<Item>>, len: nat, g: Seq<Item>) -> Seq<Seq<Item>> {
    Seq::new(
        len + 1,
        |i: int|
            {
                let there = if i < levels.len() {
                    levels[i]
                } else {
                    Seq::empty()
                };
                if i == len {
                    there + g
                } else {
                    there
                }
            },
    )
}

/// The levels with empty ones added, so that there are `len` of them.
pub open spec fn widen(levels: Seq<Seq<Item>>, len: nat) -> Seq<Seq<Item>> {
    Seq::new(
        len,
        |i: int|
            if i < levels.len() {
                levels[i]
            } else {
                Seq::empty()
            },
    )
}

/// Empty levels hold nothing.
pub proof fn lemma_widen(levels: Seq<Seq<Item>>, len: nat)
    requires
        levels.len() <= len,
    ensures
        flat(widen(levels, len)) == flat(levels),
        forall|base: Seq<NodeForm>| #[trigger]
            level_forms(widen(levels, len), base) == level_forms(levels, base),
        level_branches(widen(levels, len)) == level_branches(levels),
    decreases len,
{
    if levels.len() == len {
        assert(widen(levels, len) =~= levels);
    } else {
        let less = (len - 1) as nat;
        lemma_widen(levels, less);
        assert(widen(levels, len).drop_last() =~= widen(levels, less));
        assert(widen(levels, len).last() =~= Seq::<Item>::empty());
        lemma_fan_empty(less, 16);
        assert(flat(widen(levels, len)) =~= flat(levels));
        assert forall|base: Seq<NodeForm>| #[trigger]
            level_forms(widen(levels, len), base) == level_forms(levels, base) by {
            lemma_fan_forms_empty(less, 16, level_forms(levels, base));
            assert(level_forms(widen(levels, less), base) == level_forms(levels, base));
            assert(level_forms(widen(levels, len), base) =~= level_forms(levels, base));
        }
        assert(level_branches(widen(levels, len)) =~= level_branches(levels));
    }
}

/// What adding items at the end of the levels does.
pub proof fn lemma_place(levels: Seq<Seq<Item>>, len: nat, g: Seq<Item>, digit: u8)
    requires
        levels.len() <= len + 1,
        digit < 16,
        g.len() > 0,
        all_at(g, len, digit),
        levels.len() == len + 1 ==> all_below(levels.last(), len, digit),
    ensures
        flat(place(levels, len, g)) == flat(levels) + g,
        forall|base: Seq<NodeForm>| #[trigger]
            level_forms(place(levels, len, g), base) == level_forms(levels, base).push(
                trie_form(g, len + 1, level_forms(levels, base)),
            ),
        level_branches(place(levels, len, g)) == level_branches(levels).union_prefer_right(
            subtrie(g, len + 1).stored,
        ),
        forall|i: int|
            #![trigger level_fan(place(levels, len, g), i)]
            0 <= i < len ==> level_fan(place(levels, len, g), i) == level_fan(levels, i),
        level_fan(place(levels, len, g), len as int) == level_fan(levels, len as int).with_child(
            digit,
            subtrie(g, len + 1),
        ),
{
    let placed = place(levels, len, g);
    let wide = widen(levels, len + 1);
    lemma_widen(levels, len + 1);
    let a = wide.last();
    assert(all_below(a, len, digit));
    lemma_fan_append(a, g, len, digit);
    lemma_fan_empty(len, 16);
    assert(placed.drop_last() =~= wide.drop_last());
    assert(placed.last() == a + g);
    assert(flat(placed) =~= flat(levels) + g);
    let child = subtrie(g, len + 1);
    assert(fan(placed.last(), len, 16) == fan(a, len, 16).with_child(digit, child));
    assert forall|base: Seq<NodeForm>| #[trigger]
        level_forms(placed, base) == level_forms(levels, base).push(
            trie_form(g, len + 1, level_forms(levels, base)),
        ) by {
        let lower = level_forms(wide.drop_last(), base);
        lemma_fan_forms_append(a, g, len, digit, 16, lower);
        assert(level_forms(wide, base) == lower + fan_forms(a, len, 16, lower));
        assert(level_forms(placed, base) =~= level_forms(wide, base).push(
            trie_form(g, len + 1, level_forms(wide, base)),
        ));
    }
    assert(level_branches(placed) =~= level_branches(levels).union_prefer_right(child.stored));
    assert forall|i: int| #![trigger level_fan(placed, i)] 0 <= i < len implies level_fan(
        placed,
        i,
    ) == level_fan(levels, i) by {
        if i >= levels.len() {
            lemma_fan_empty(i as nat, 16);
        }
    }
}

/// Where a key has a nibble at the position, the bit of that nibble is set.
pub proof fn lemma_fan_has_bit(items: Seq<Item>, d: nat, i: int, n: nat)
    requires
        0 <= i < items.len(),
        items[i].key.len() > d,
        items[i].key[d as int] < 16,
        n <= 16,
    ensures
        n > items[i].key[d as int] ==> has_bit(
            fan(items, d, n).state_mask,
            items[i].key[d as int],
        ),
    decreases n,
{
    let m = items[i].key[d as int];
    lemma_longest(items, i);
    if n > m {
        let k = (n - 1) as u8;
        lemma_fan_has_bit(items, d, i, (n - 1) as nat);
        let rest = fan(items, d, (n - 1) as nat);
        if k == m {
            lemma_with_nibble_some(items, d, m, i);
            lemma_set_bit(rest.state_mask, m, m);
        } else if with_nibble(items, d, k).len() > 0 {
            lemma_set_bit(rest.state_mask, k, m);
        }
    }
}

/// The mask of a level is empty where the level is, and only there.
pub proof fn lemma_level_mask(items: Seq<Item>, d: nat, digit: u8)
    requires
        all_below(items, d, digit),
        digit <= 16,
    ensures
        fan(items, d, 16).state_mask == 0 <==> items.len() == 0,
{
    if items.len() == 0 {
        assert(items =~= Seq::empty());
        lemma_fan_empty(d, 16);
    } else {
        let m = items[0].key[d as int];
        assert(m < digit);
        lemma_fan_has_bit(items, d, 0, 16);
        assert(0u16 & (1u16 << m) == 0) by (bit_vector);
    }
}

/// The items of a level leave the path there.
pub proof fn lemma_leaves_at(items: Seq<Item>, path: Seq<u8>, i: int, j: int)
    requires
        0 <= i < path.len(),
        all_start_with(items, path.take(i)),
        all_below(items, i as nat, path[i]),
        0 <= j < items.len(),
    ensures
        lcp(items[j].key, path) == i,
{
    let key = items[j].key;
    assert(key.take(i) == path.take(i));
    assert forall|k: int| 0 <= k < i implies #[trigger] key[k] == path[k] by {
        assert(key.take(i)[k] == path.take(i)[k]);
    }
    lemma_lcp_unique(key, path, i as nat);
}

/// Choosing by a property that none has gives nothing, by one that all have everything.
pub proof fn lemma_filter_uniform(items: Seq<Item>, pred: spec_fn(Item) -> bool, all: bool)
    requires
        forall|i: int| #![trigger items[i]] 0 <= i < items.len() ==> pred(items[i]) == all,
    ensures
        items.filter(pred) == if all {
            items
        } else {
            Seq::empty()
        },
    decreases items.len(),
{
    reveal_with_fuel(Seq::filter, 2);
    if items.len() > 0 {
        let rest = items.drop_last();
        assert forall|i: int| #![trigger rest[i]] 0 <= i < rest.len() implies pred(rest[i])
            == all by {
            assert(rest[i] == items[i]);
        }
        lemma_filter_uniform(rest, pred, all);
        assert(items.last() == items[items.len() - 1]);
        assert(rest.push(items.last()) =~= items);
    }
}

/// A level holds the items that leave the path there.
pub proof fn lemma_level_is(levels: Seq<Seq<Item>>, path: Seq<u8>, i: int)
    requires
        levels_off(levels, path),
        0 <= i,
    ensures
        leaving_at(flat(levels), path, i as nat) == (if i < levels.len() {
            levels[i]
        } else {
            Seq::empty()
        }),
    decreases levels.len(),
{
    let pred = |item: Item| lcp(item.key, path) == i as nat;
    if levels.len() == 0 {
        reveal_with_fuel(Seq::filter, 1);
    } else {
        let last = levels.len() - 1;
        let rest = levels.drop_last();
        assert forall|k: int| #![trigger rest[k]] 0 <= k < rest.len() implies all_start_with(
            rest[k],
            path.take(k),
        ) && all_below(rest[k], k as nat, path[k]) by {
            assert(rest[k] == levels[k]);
        }
        lemma_level_is(rest, path, i);
        Seq::filter_distributes_over_add(flat(rest), levels.last(), pred);
        let top = levels.last();
        assert(levels[last] == top);
        assert forall|j: int| #![trigger top[j]] 0 <= j < top.len() implies pred(top[j]) == (i
            == last) by {
            lemma_leaves_at(top, path, last, j);
        }
        lemma_filter_uniform(top, pred, i == last);
        assert(leaving_at(flat(levels), path, i as nat) == leaving_at(flat(rest), path, i as nat)
            + top.filter(pred));
        if i == last {
            assert(leaving_at(flat(levels), path, i as nat) =~= levels[i]);
        } else if i < last {
            assert(leaving_at(flat(levels), path, i as nat) =~= levels[i]);
        } else {
            assert(leaving_at(flat(levels), path, i as nat) =~= Seq::empty());
        }
    }
}

/// The branches of the levels are those of the tries that leave the path.
pub proof fn lemma_level_branches(levels: Seq<Seq<Item>>, path: Seq<u8>, n: nat)
    requires
        levels_off(levels, path),
    ensures
        branches_off(flat(levels), path, n) == level_branches(
            levels.take(
                if n < levels.len() {
                    n as int
                } else {
                    levels.len() as int
                },
            ),
        ),
    decreases n,
{
    if n > 0 {
        let i = (n - 1) as nat;
        lemma_level_branches(levels, path, i);
        lemma_level_is(levels, path, i as int);
        if i < levels.len() {
            assert(levels.take(n as int).drop_last() =~= levels.take(i as int));
            assert(levels.take(n as int).last() == levels[i as int]);
        } else {
            lemma_fan_empty(i, 16);
            assert(branches_off(flat(levels), path, n) =~= branches_off(flat(levels), path, i));
            assert(levels.take(levels.len() as int) =~= levels);
        }
    } else {
        assert(levels.take(0) =~= Seq::empty());
    }
}

/// The nodes of the levels are those of the tries that leave the path.
pub proof fn lemma_level_forms(
    levels: Seq<Seq<Item>>,
    path: Seq<u8>,
    n: nat,
    base: Seq<NodeForm>,
)
    requires
        levels_off(levels, path),
    ensures
        forms_off(flat(levels), path, n, base) == level_forms(
            levels.take(
                if n < levels.len() {
                    n as int
                } else {
                    levels.len() as int
                },
            ),
            base,
        ),
    decreases n,
{
    if n > 0 {
        let i = (n - 1) as nat;
        lemma_level_forms(levels, path, i, base);
        lemma_level_is(levels, path, i as int);
        if i < levels.len() {
            assert(levels.take(n as int).drop_last() =~= levels.take(i as int));
            assert(levels.take(n as int).last() == levels[i as int]);
        } else {
            let lower = forms_off(flat(levels), path, i, base);
            lemma_fan_forms_empty(i, 16, lower);
            assert(forms_off(flat(levels), path, n, base) =~= lower);
            assert(levels.take(levels.len() as int) =~= levels);
        }
    } else {
        assert(levels.take(0) =~= Seq::empty());
    }
}

/// The last item leaves the path at the last level.
pub proof fn lemma_last_leaves(levels: Seq<Seq<Item>>, path: Seq<u8>)
    requires
        levels_off(levels, path),
        levels.len() > 0,
        levels.last().len() > 0,
    ensures
        flat(levels).len() > 0,
        lcp(flat(levels).last().key, path) == levels.len() - 1,
{
    let top = levels.last();
    assert(levels[levels.len() - 1] == top);
    lemma_leaves_at(top, path, levels.len() - 1, top.len() - 1);
    assert(flat(levels).last() == top.last());
}

/// No branch of the levels lies on the path.
pub proof fn lemma_branches_leave(levels: Seq<Seq<Item>>, path: Seq<u8>)
    requires
        levels_off(levels, path),
        forall|i: int| 0 <= i < path.len() ==> #[trigger] path[i] < 16,
    ensures
        forall|len: int|
            0 <= len <= path.len() ==> !level_branches(levels).dom().contains(
                #[trigger] path.take(len),
            ),
    decreases levels.len(),
{
    if levels.len() > 0 {
        let last = levels.len() - 1;
        let rest = levels.drop_last();
        assert forall|k: int| #![trigger rest[k]] 0 <= k < rest.len() implies all_start_with(
            rest[k],
            path.take(k),
        ) && all_below(rest[k], k as nat, path[k]) by {
            assert(rest[k] == levels[k]);
        }
        lemma_branches_leave(rest, path);
        let top = levels.last();
        assert(levels[last] == top);
        let f = fan(top, last as nat, 16);
        assert forall|len: int| 0 <= len <= path.len() implies !level_branches(
            levels,
        ).dom().contains(#[trigger] path.take(len)) by {
            let q = path.take(len);
            if f.stored.dom().contains(q) {
                if top.len() == 0 {
                    assert(top =~= Seq::empty());
                    lemma_fan_empty(last as nat, 16);
                } else {
                    lemma_fan_paths(top, path.take(last), 16);
                    assert(path.take(last).len() == last);
                    assert(q[last] == path[last]);
                    lemma_with_nibble_none(top, last as nat, path[last]);
                }
            }
        }
    }
}

} // verus!
