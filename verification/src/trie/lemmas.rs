//! Facts about the trie model on which the hash builder rests.
use crate::trie::form::{form_rlp, form_rlps, is_long, lemma_form_rlps_from, NodeForm};
use crate::trie::mask::{
    bits_below, has_bit, is_subset, lemma_count_empty, lemma_count_set_bit, lemma_set_bit,
    lemma_subset_set_bit,
};
use crate::trie::model::{
    branch_subtrie, extended, extended_form, fan, fan_forms, lemma_longest_with_nibble, longest,
    room, shared_len, subtrie, trie_form, with_nibble, Fan, Item, ItemValue,
};
use crate::trie::nibbles::{lcp, lemma_lcp};
use vstd::prelude::*;

verus! {

/// The children of a branch without items.
pub open spec fn no_children() -> Fan {
    Fan {
        rlps: Seq::empty(),
        state_mask: 0,
        tree_mask: 0,
        hash_mask: 0,
        stored: Map::empty(),
    }
}

/// Whether every key starts with `path`.
pub open spec fn all_start_with(items: Seq<Item>, path: Seq<u8>) -> bool {
    forall|i: int|
        #![trigger items[i]]
        0 <= i < items.len() ==> items[i].key.len() >= path.len() && items[i].key.take(
            path.len() as int,
        ) == path
}

/// Whether every key has a nibble at position `d`, and one smaller than `n`.
pub open spec fn all_below(items: Seq<Item>, d: nat, n: u8) -> bool {
    forall|i: int|
        #![trigger items[i]]
        0 <= i < items.len() ==> items[i].key.len() > d && items[i].key[d as int] < n
}

/// Whether every key holds `n` at position `d`.
pub open spec fn all_at(items: Seq<Item>, d: nat, n: u8) -> bool {
    forall|i: int|
        #![trigger items[i]]
        0 <= i < items.len() ==> items[i].key.len() > d && items[i].key[d as int] == n
}

/// No key is longer than the longest.
pub proof fn lemma_longest(items: Seq<Item>, i: int)
    requires
        0 <= i < items.len(),
    ensures
        items[i].key.len() <= longest(items),
    decreases items.len(),
{
    if i < items.len() - 1 {
        lemma_longest(items.drop_last(), i);
    }
}

/// Without items there are no children.
pub proof fn lemma_fan_empty(d: nat, n: nat)
    ensures
        fan(Seq::empty(), d, n) == no_children(),
    decreases n,
{
    if n > 0 {
        lemma_fan_empty(d, (n - 1) as nat);
        reveal_with_fuel(Seq::filter, 1);
    }
}

/// Where no key has the nibble, none is chosen.
pub proof fn lemma_with_nibble_none(items: Seq<Item>, d: nat, n: u8)
    requires
        forall|i: int|
            #![trigger items[i]]
            0 <= i < items.len() ==> items[i].key.len() > d && items[i].key[d as int] != n,
    ensures
        with_nibble(items, d, n) == Seq::<Item>::empty(),
    decreases items.len(),
{
    reveal_with_fuel(Seq::filter, 2);
    if items.len() > 0 {
        let rest = items.drop_last();
        assert forall|i: int| #![trigger rest[i]] 0 <= i < rest.len() implies rest[i].key.len() > d
            && rest[i].key[d as int] != n by {
            assert(rest[i] == items[i]);
        }
        lemma_with_nibble_none(rest, d, n);
        assert(items.last() == items[items.len() - 1]);
    }
}

/// Where every key has the nibble, all are chosen.
pub proof fn lemma_with_nibble_all(items: Seq<Item>, d: nat, n: u8)
    requires
        all_at(items, d, n),
    ensures
        with_nibble(items, d, n) == items,
    decreases items.len(),
{
    reveal_with_fuel(Seq::filter, 2);
    if items.len() > 0 {
        let rest = items.drop_last();
        assert forall|i: int| #![trigger rest[i]] 0 <= i < rest.len() implies rest[i].key.len() > d
            && rest[i].key[d as int] == n by {
            assert(rest[i] == items[i]);
        }
        lemma_with_nibble_all(rest, d, n);
        assert(items.last() == items[items.len() - 1]);
        assert(rest.push(items.last()) =~= items);
    }
}

/// Where a key has the nibble, one is chosen.
pub proof fn lemma_with_nibble_some(items: Seq<Item>, d: nat, n: u8, i: int)
    requires
        0 <= i < items.len(),
        items[i].key.len() > d,
        items[i].key[d as int] == n,
    ensures
        with_nibble(items, d, n).len() > 0,
    decreases items.len(),
{
    reveal_with_fuel(Seq::filter, 2);
    if i < items.len() - 1 {
        lemma_with_nibble_some(items.drop_last(), d, n, i);
    }
}

/// What is chosen comes from the items and has the nibble.
pub proof fn lemma_with_nibble_from(items: Seq<Item>, d: nat, n: u8, i: int)
    requires
        0 <= i < with_nibble(items, d, n).len(),
    ensures
        items.contains(with_nibble(items, d, n)[i]),
        with_nibble(items, d, n)[i].key.len() > d,
        with_nibble(items, d, n)[i].key[d as int] == n,
    decreases items.len(),
{
    reveal_with_fuel(Seq::filter, 2);
    if items.len() > 0 {
        let rest = items.drop_last();
        let kept = with_nibble(rest, d, n);
        if i < kept.len() {
            lemma_with_nibble_from(rest, d, n, i);
            let j = choose|j: int| 0 <= j < rest.len() && rest[j] == kept[i];
            assert(items[j] == kept[i]);
            assert(with_nibble(items, d, n)[i] == kept[i]);
        } else {
            assert(with_nibble(items, d, n)[i] == items.last());
            assert(items[items.len() - 1] == items.last());
        }
    }
}

/// Items of a larger nibble than all others add one child, behind the others.
pub proof fn lemma_fan_append_below(a: Seq<Item>, g: Seq<Item>, d: nat, digit: u8, n: nat)
    requires
        digit < 16,
        n <= 16,
        all_below(a, d, digit),
        all_at(g, d, digit),
        g.len() > 0,
    ensures
        n <= digit ==> fan(a + g, d, n) == fan(a, d, n),
        n > digit ==> fan(a + g, d, n) == fan(a, d, n).with_child(digit, subtrie(g, d + 1)),
    decreases n,
{
    let all = a + g;
    assert(all[a.len() as int] == g[0]);
    lemma_longest(all, a.len() as int);
    if a.len() > 0 {
        assert(a[0].key.len() > d);
        lemma_longest(a, 0);
    } else {
        assert(a =~= Seq::empty());
        lemma_fan_empty(d, n);
        if n > 0 {
            lemma_fan_empty(d, (n - 1) as nat);
        }
    }
    if n > 0 {
        lemma_fan_append_below(a, g, d, digit, (n - 1) as nat);
        let m = (n - 1) as u8;
        Seq::filter_distributes_over_add(
            a,
            g,
            |item: Item| item.key.len() > d && item.key[d as int] == m,
        );
        assert(with_nibble(all, d, m) == with_nibble(a, d, m) + with_nibble(g, d, m));
        if m >= digit {
            lemma_with_nibble_none(a, d, m);
        }
        if m == digit {
            lemma_with_nibble_all(g, d, m);
            assert(with_nibble(all, d, m) =~= g);
        } else {
            lemma_with_nibble_none(g, d, m);
            assert(with_nibble(all, d, m) =~= with_nibble(a, d, m));
        }
    } 
}

/// Items of a larger nibble than all others add one child, behind the others.
pub proof fn lemma_fan_append(a: Seq<Item>, g: Seq<Item>, d: nat, digit: u8)
    requires
        digit < 16,
        all_below(a, d, digit),
        all_at(g, d, digit),
        g.len() > 0,
    ensures
        fan(a + g, d, 16) == fan(a, d, 16).with_child(digit, subtrie(g, d + 1)),
{
    lemma_fan_append_below(a, g, d, digit, 16);
}

/// What the masks of a branch say of its children.
pub proof fn lemma_fan_masks(items: Seq<Item>, d: nat, n: nat)
    requires
        n <= 16,
    ensures
        ({
            let f = fan(items, d, n);
            &&& f.rlps.len() == bits_below(f.state_mask, 16)
            &&& is_subset(f.tree_mask, f.state_mask)
            &&& is_subset(f.hash_mask, f.state_mask)
            &&& forall|m: u8|
                m < 16 && #[trigger] has_bit(f.state_mask, m) ==> m < n && with_nibble(
                    items,
                    d,
                    m,
                ).len() > 0
        }),
    decreases n,
{
    if n == 0 || d > longest(items) {
        lemma_count_empty(16);
        assert forall|m: u8| m < 16 implies !#[trigger] has_bit(0u16, m) by {
            assert(0u16 & (1u16 << m) == 0) by (bit_vector);
        }
        assert(0u16 & 0u16 == 0u16) by (bit_vector);
    } else {
        lemma_fan_masks(items, d, (n - 1) as nat);
        let rest = fan(items, d, (n - 1) as nat);
        let m = (n - 1) as u8;
        if with_nibble(items, d, m).len() > 0 {
            assert(!has_bit(rest.state_mask, m));
            lemma_count_set_bit(rest.state_mask, m, 16);
            lemma_subset_set_bit(rest.tree_mask, rest.state_mask, m);
            lemma_subset_set_bit(rest.hash_mask, rest.state_mask, m);
            let f = fan(items, d, n);
            assert forall|k: u8| k < 16 && #[trigger] has_bit(f.state_mask, k) implies k < n
                && with_nibble(items, d, k).len() > 0 by {
                lemma_set_bit(rest.state_mask, m, k);
            }
        }
    }
}

/// Where all keys have a nibble below `digit`, the bit of `digit` is not set.
pub proof fn lemma_fan_bit_clear(items: Seq<Item>, d: nat, digit: u8)
    requires
        digit < 16,
        all_below(items, d, digit),
    ensures
        !has_bit(fan(items, d, 16).state_mask, digit),
{
    lemma_fan_masks(items, d, 16);
    lemma_with_nibble_none(items, d, digit);
}

/// The shared prefix is a prefix of every key.
pub proof fn lemma_shared_len(items: Seq<Item>, i: int)
    requires
        0 <= i < items.len(),
    ensures
        shared_len(items) <= items[0].key.len(),
        shared_len(items) <= items[i].key.len(),
        items[i].key.take(shared_len(items) as int) == items[0].key.take(shared_len(items) as int),
    decreases items.len(),
{
    if items.len() > 1 {
        let rest = items.drop_last();
        lemma_lcp(items[0].key, items.last().key);
        if i < rest.len() {
            lemma_shared_len(rest, i);
            let s = shared_len(items) as int;
            let r = shared_len(rest) as int;
            assert(items[i].key.take(s) =~= items[i].key.take(r).take(s));
            assert(items[0].key.take(s) =~= items[0].key.take(r).take(s));
        } else {
            lemma_shared_len(rest, 0);
            assert(items[i].key.take(shared_len(items) as int) =~= items[0].key.take(
                shared_len(items) as int,
            ));
        }
    }
}

/// The shared prefix has length `l` where all keys share that much with the first one and one of
/// them no more.
pub proof fn lemma_shared_len_is(items: Seq<Item>, l: nat, k: int)
    requires
        items.len() >= 2,
        forall|i: int|
            #![trigger items[i]]
            0 <= i < items.len() ==> lcp(items[0].key, items[i].key) >= l,
        0 < k < items.len(),
        lcp(items[0].key, items[k].key) == l,
    ensures
        shared_len(items) == l,
    decreases items.len(),
{
    let rest = items.drop_last();
    lemma_shared_len_least(rest, l);
    assert(items.last() == items[items.len() - 1]);
    if k < items.len() - 1 {
        lemma_shared_len_is(rest, l, k);
    }
}

/// The shared prefix is at least as long as what all keys share with the first one.
pub proof fn lemma_shared_len_least(items: Seq<Item>, l: nat)
    requires
        items.len() >= 1,
        forall|i: int|
            #![trigger items[i]]
            0 <= i < items.len() ==> lcp(items[0].key, items[i].key) >= l,
    ensures
        shared_len(items) >= l,
    decreases items.len(),
{
    lemma_lcp(items[0].key, items[0].key);
    if items.len() > 1 {
        lemma_shared_len_least(items.drop_last(), l);
        assert(items.last() == items[items.len() - 1]);
    }
}

/// Two groups of items below one path whose next nibbles differ have a branch at that path.
pub proof fn lemma_branch(a: Seq<Item>, g: Seq<Item>, path: Seq<u8>, digit: u8)
    requires
        digit < 16,
        a.len() > 0,
        g.len() > 0,
        all_start_with(a, path),
        all_start_with(g, path),
        all_below(a, path.len(), digit),
        all_at(g, path.len(), digit),
    ensures
        shared_len(a + g) == path.len(),
        forall|d: nat|
            d <= path.len() ==> #[trigger] subtrie(a + g, d) == branch_subtrie(
                fan(a, path.len(), 16).with_child(digit, subtrie(g, path.len() + 1)),
                path,
                d,
            ),
{
    let all = a + g;
    let len = path.len();
    let first = all[0].key;
    assert(all[0] == a[0]);
    assert(first.take(len as int) == path);
    assert forall|i: int| #![trigger all[i]] 0 <= i < all.len() implies lcp(first, all[i].key)
        >= len by {
        lemma_lcp(first, all[i].key);
        let other = all[i].key;
        assert(other.take(len as int) == path) by {
            if i < a.len() {
                assert(all[i] == a[i]);
            } else {
                assert(all[i] == g[i - a.len()]);
            }
        }
        if lcp(first, other) < len {
            let l = lcp(first, other) as int;
            assert(first[l] == first.take(len as int)[l]);
            assert(other[l] == other.take(len as int)[l]);
            assert(other.len() > len) by {
                if i < a.len() {
                    assert(all[i] == a[i]);
                } else {
                    assert(all[i] == g[i - a.len()]);
                }
            }
        }
    }
    let k = a.len() as int;
    assert(all[k] == g[0]);
    let other = all[k].key;
    assert(lcp(first, other) == len) by {
        lemma_lcp(first, other);
        if lcp(first, other) > len {
            assert(first[len as int] == other[len as int]);
        }
    }
    lemma_shared_len_is(all, len, k);
    lemma_fan_append(a, g, len, digit);
    lemma_longest(all, 0);
}

/// Every branch of a trie lies below the prefix that its items share, and every branch below a
/// branch lies below one of its children.
pub proof fn lemma_stored_paths(items: Seq<Item>, path: Seq<u8>)
    requires
        items.len() > 0,
        all_start_with(items, path),
    ensures
        forall|q: Seq<u8>| #[trigger]
            subtrie(items, path.len()).stored.dom().contains(q) ==> q.len() >= path.len()
                && q.take(path.len() as int) == path,
    decreases room(items, path.len()), 2nat, 0nat,
{
    let d = path.len();
    let c = shared_len(items);
    if items.len() > 1 && d <= c <= longest(items) {
        let longer = items[0].key.take(c as int);
        lemma_shared_len(items, 0);
        assert forall|i: int| #![trigger items[i]] 0 <= i < items.len() implies items[i].key.len()
            >= longer.len() && items[i].key.take(longer.len() as int) == longer by {
            lemma_shared_len(items, i);
        }
        lemma_fan_paths(items, longer, 16);
        assert(longer.take(d as int) =~= items[0].key.take(d as int));
        assert forall|q: Seq<u8>| #[trigger]
            subtrie(items, d).stored.dom().contains(q) implies q.len() >= d && q.take(d as int)
            == path by {
            if q != longer {
                assert(fan(items, c, 16).stored.dom().contains(q));
                assert(q.take(d as int) =~= q.take(c as int).take(d as int));
            }
        }
    }
}

/// Every branch below a branch lies below one of its children.
pub proof fn lemma_fan_paths(items: Seq<Item>, path: Seq<u8>, n: nat)
    requires
        n <= 16,
        items.len() > 0,
        all_start_with(items, path),
    ensures
        forall|q: Seq<u8>| #[trigger]
            fan(items, path.len(), n).stored.dom().contains(q) ==> q.len() > path.len() && q.take(
                path.len() as int,
            ) == path && q[path.len() as int] < n && with_nibble(
                items,
                path.len(),
                q[path.len() as int],
            ).len() > 0,
    decreases room(items, path.len()), 1nat, n,
{
    let d = path.len();
    if n > 0 && d <= longest(items) {
        lemma_fan_paths(items, path, (n - 1) as nat);
        let m = (n - 1) as u8;
        let below = with_nibble(items, d, m);
        if below.len() > 0 {
            let longer = path.push(m);
            assert forall|i: int| #![trigger below[i]] 0 <= i < below.len() implies
                below[i].key.len() >= longer.len() && below[i].key.take(longer.len() as int)
                == longer by {
                lemma_with_nibble_from(items, d, m, i);
                let j = choose|j: int| 0 <= j < items.len() && items[j] == below[i];
                assert(items[j].key.take(d as int) == path);
                assert(below[i].key.take(longer.len() as int) =~= longer) by {
                    assert forall|k: int| 0 <= k < d implies below[i].key[k] == path[k] by {
                        assert(below[i].key.take(d as int)[k] == path[k]);
                    }
                }
            }
            lemma_longest_with_nibble(items, d, m);
            lemma_stored_paths(below, longer);
            let f = fan(items, d, n);
            assert forall|q: Seq<u8>| #[trigger] f.stored.dom().contains(q) implies q.len() > d
                && q.take(d as int) == path && q[d as int] < n && with_nibble(
                items,
                d,
                q[d as int],
            ).len() > 0 by {
                if subtrie(below, d + 1).stored.dom().contains(q) {
                    assert(q.take(d as int + 1) == longer);
                    assert(q.take(d as int) =~= q.take(d as int + 1).take(d as int));
                    assert(longer.take(d as int) =~= path);
                    assert(q[d as int] == q.take(d as int + 1)[d as int]);
                } else {
                    assert(fan(items, d, (n - 1) as nat).stored.dom().contains(q));
                }
            }
        } else {
            assert(fan(items, d, n) == fan(items, d, (n - 1) as nat));
        }
    } else {
        assert(fan(items, d, n) == no_children());
    }
}

/// A trie seen from two depths: behind an extension it is the same trie.
pub proof fn lemma_depth(g: Seq<Item>, path: Seq<u8>, d: nat)
    requires
        g.len() > 0,
        all_start_with(g, path),
        d <= path.len(),
        g.len() == 1 ==> g[0].key == path,
        g.len() > 1 ==> shared_len(g) == path.len(),
    ensures
        subtrie(g, d).stored == subtrie(g, path.len()).stored,
        subtrie(g, d).in_db == subtrie(g, path.len()).in_db,
        subtrie(g, d).is_hash == (subtrie(g, path.len()).is_hash && d == path.len()),
        g.len() > 1 || g[0].value is Hash ==> {
            &&& subtrie(g, d).rlp == extended(path, d, subtrie(g, path.len()).rlp)
            &&& forall|base: Seq<NodeForm>| #[trigger]
                trie_form(g, d, base) == extended_form(path, d, trie_form(g, path.len(), base))
            &&& subtrie(g, path.len()).is_hash
        },
{
    if g.len() > 1 {
        lemma_longest(g, 0);
        assert(g[0].key.take(path.len() as int) == path);
    }
}

/// Items whose keys start with a path start with what is shorter.
pub proof fn lemma_start_with_shorter(items: Seq<Item>, path: Seq<u8>, len: int)
    requires
        all_start_with(items, path),
        0 <= len <= path.len(),
    ensures
        all_start_with(items, path.take(len)),
{
    assert forall|i: int| #![trigger items[i]] 0 <= i < items.len() implies items[i].key.len()
        >= path.take(len).len() && items[i].key.take(path.take(len).len() as int) == path.take(
        len,
    ) by {
        assert(items[i].key.take(path.len() as int) == path);
        assert(items[i].key.take(len) =~= path.take(len));
    }
}

/// The references in a trie are those to its nodes, whatever is on the stack below.
pub proof fn lemma_form_rlp(items: Seq<Item>, d: nat, base: Seq<NodeForm>)
    ensures
        form_rlp(trie_form(items, d, base)) == subtrie(items, d).rlp,
    decreases room(items, d), 2nat, 0nat,
{
    reveal_with_fuel(form_rlp, 3);
    let c = shared_len(items);
    if items.len() != 1 && d <= c <= longest(items) {
        lemma_fan_forms(items, c, 16, base);
        let forms = fan_forms(items, c, 16, base);
        lemma_form_rlps_from(base + forms, base.len());
        assert((base + forms).skip(base.len() as int) =~= forms);
    }
}

/// The references to the children are those to their nodes, whatever is on the stack below.
pub proof fn lemma_fan_forms(items: Seq<Item>, d: nat, n: nat, base: Seq<NodeForm>)
    ensures
        form_rlps(fan_forms(items, d, n, base)) == fan(items, d, n).rlps,
        fan_forms(items, d, n, base).len() == fan(items, d, n).rlps.len(),
    decreases room(items, d), 1nat, n,
{
    let forms = fan_forms(items, d, n, base);
    if n > 0 && d <= longest(items) {
        let m = (n - 1) as u8;
        let rest = fan_forms(items, d, (n - 1) as nat, base);
        lemma_fan_forms(items, d, (n - 1) as nat, base);
        let below = with_nibble(items, d, m);
        if below.len() > 0 {
            lemma_longest_with_nibble(items, d, m);
            lemma_form_rlp(below, d + 1, base + rest);
            assert(form_rlps(forms) =~= form_rlps(rest).push(
                form_rlp(trie_form(below, d + 1, base + rest)),
            ));
        }
    } else {
        assert(form_rlps(forms) =~= fan(items, d, n).rlps);
    }
}

/// Without items there are no nodes.
pub proof fn lemma_fan_forms_empty(d: nat, n: nat, base: Seq<NodeForm>)
    ensures
        fan_forms(Seq::empty(), d, n, base) == Seq::<NodeForm>::empty(),
{
    lemma_fan_forms(Seq::empty(), d, n, base);
    lemma_fan_empty(d, n);
    assert(fan_forms(Seq::empty(), d, n, base) =~= Seq::<NodeForm>::empty());
}

/// Items of a larger nibble than all others add one node, behind the others.
pub proof fn lemma_fan_forms_append(
    a: Seq<Item>,
    g: Seq<Item>,
    d: nat,
    digit: u8,
    n: nat,
    base: Seq<NodeForm>,
)
    requires
        digit < 16,
        n <= 16,
        all_below(a, d, digit),
        all_at(g, d, digit),
        g.len() > 0,
    ensures
        n <= digit ==> fan_forms(a + g, d, n, base) == fan_forms(a, d, n, base),
        n > digit ==> fan_forms(a + g, d, n, base) == fan_forms(a, d, n, base).push(
            trie_form(g, d + 1, base + fan_forms(a, d, n, base)),
        ),
    decreases n,
{
    let all = a + g;
    assert(all[a.len() as int] == g[0]);
    lemma_longest(all, a.len() as int);
    if a.len() > 0 {
        assert(a[0].key.len() > d);
        lemma_longest(a, 0);
    } else {
        assert(a =~= Seq::empty());
        lemma_fan_forms_empty(d, n, base);
        if n > 0 {
            lemma_fan_forms_empty(d, (n - 1) as nat, base);
        }
    }
    if n > 0 {
        lemma_fan_forms_append(a, g, d, digit, (n - 1) as nat, base);
        let m = (n - 1) as u8;
        Seq::filter_distributes_over_add(
            a,
            g,
            |item: Item| item.key.len() > d && item.key[d as int] == m,
        );
        assert(with_nibble(all, d, m) == with_nibble(a, d, m) + with_nibble(g, d, m));
        if m >= digit {
            lemma_with_nibble_none(a, d, m);
        }
        if m == digit {
            lemma_with_nibble_all(g, d, m);
            assert(with_nibble(all, d, m) =~= g);
        } else {
            lemma_with_nibble_none(g, d, m);
            assert(with_nibble(all, d, m) =~= with_nibble(a, d, m));
        }
    }
}

/// Whether every item is a hash, or has a value of at least 32 bytes.
pub open spec fn all_long(items: Seq<Item>) -> bool {
    forall|i: int|
        #![trigger items[i]]
        0 <= i < items.len() ==> (items[i].value matches ItemValue::Leaf(value) ==> value.len()
            >= 32)
}

/// The nodes of long items are long, whatever is on the stack below.
pub proof fn lemma_trie_is_long(items: Seq<Item>, d: nat, base: Seq<NodeForm>)
    requires
        all_long(items),
    ensures
        is_long(trie_form(items, d, base)),
    decreases room(items, d), 2nat, 0nat,
{
    reveal_with_fuel(is_long, 2);
    let c = shared_len(items);
    if items.len() == 1 {
        assert(items[0].value matches ItemValue::Leaf(value) ==> value.len() >= 32);
    } else if d <= c <= longest(items) {
        lemma_fan_is_long(items, c, 16, base);
        let forms = fan_forms(items, c, 16, base);
        let branch = fan(items, c, 16).form(base, forms);
        assert forall|i: int| base.len() <= i < (base + forms).len() implies is_long(
            #[trigger] (base + forms)[i],
        ) by {
            assert((base + forms)[i] == forms[i - base.len()]);
        }
        assert(is_long(branch));
    }
}

/// The nodes of long items are long, whatever is on the stack below.
pub proof fn lemma_fan_is_long(items: Seq<Item>, d: nat, n: nat, base: Seq<NodeForm>)
    requires
        all_long(items),
    ensures
        forall|i: int|
            0 <= i < fan_forms(items, d, n, base).len() ==> is_long(
                #[trigger] fan_forms(items, d, n, base)[i],
            ),
    decreases room(items, d), 1nat, n,
{
    let forms = fan_forms(items, d, n, base);
    if n > 0 && d <= longest(items) {
        let m = (n - 1) as u8;
        let rest = fan_forms(items, d, (n - 1) as nat, base);
        lemma_fan_is_long(items, d, (n - 1) as nat, base);
        let below = with_nibble(items, d, m);
        if below.len() > 0 {
            lemma_longest_with_nibble(items, d, m);
            assert forall|i: int| #![trigger below[i]] 0 <= i < below.len() implies (
            below[i].value matches ItemValue::Leaf(value) ==> value.len() >= 32) by {
                lemma_with_nibble_from(items, d, m, i);
                let j = choose|j: int| 0 <= j < items.len() && items[j] == below[i];
                assert(items[j] == below[i]);
            }
            lemma_trie_is_long(below, d + 1, base + rest);
            assert forall|i: int| 0 <= i < forms.len() implies is_long(#[trigger] forms[i]) by {
                if i < rest.len() {
                    assert(forms[i] == rest[i]);
                }
            }
        }
    }
}

} // verus!
