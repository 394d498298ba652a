//! Merkle proofs: the root of a trie commits to what stands at the end of each key.
use crate::crypto::keccak::keccak256_digest;
use crate::trie::laws::{lemma_all_share, lemma_follows_transitive, lemma_lcp_least};
use crate::trie::lemmas::{
    all_start_with, lemma_fan_masks, lemma_longest, lemma_shared_len, lemma_with_nibble_from,
    lemma_with_nibble_some,
};
use crate::trie::mask::{bits_below, has_bit, is_subset, lemma_set_bit};
use crate::trie::model::{
    fan, lemma_longest_with_nibble, longest, room, shared_len, subtrie, trie_root, with_nibble,
    Item, ItemValue,
};
use crate::trie::nibbles::{all_nibbles, follows, lcp, lemma_lcp, lemma_lcp_unique};
use crate::trie::rlp::{
    branch_encoding, branch_slots, extension_encoding, extension_reference, hex_prefix,
    leaf_encoding, leaf_reference, reference, reference_hash, rlp_list, rlp_string, word_reference,
};
use vstd::prelude::*;

verus! {

/// A node as a proof shows it.
pub enum ProofNode {
    /// The rest of the key, and the value.
    Leaf(Seq<u8>, Seq<u8>),
    /// A path, and the reference to what is at its end.
    Extension(Seq<u8>, Seq<u8>),
    /// For each nibble the reference to a child, or an empty string.
    Branch(Seq<Seq<u8>>),
}

/// The first `n` parts, one behind the other.
pub open spec fn joined(parts: Seq<Seq<u8>>, n: nat) -> Seq<u8>
    decreases n,
{
    if n == 0 {
        Seq::empty()
    } else {
        joined(parts, (n - 1) as nat) + parts[n - 1]
    }
}

/// The node as bytes: the list of its path and value, of its path and child, or of its sixteen
/// children and an empty value.
#[verifier::opaque]
pub open spec fn node_bytes(node: ProofNode) -> Seq<u8> {
    match node {
        ProofNode::Leaf(key, value) => rlp_list(
            rlp_string(hex_prefix(key, true)) + rlp_string(value),
        ),
        ProofNode::Extension(path, child) => rlp_list(rlp_string(hex_prefix(path, false)) + child),
        ProofNode::Branch(slots) => rlp_list(joined(slots, 16).push(0x80)),
    }
}

/// Whether `r` is the reference to the node: its bytes, or their digest as a string where they are
/// 32 or more.
pub open spec fn refers_to(r: Seq<u8>, node: ProofNode) -> bool {
    if node_bytes(node).len() < 32 {
        r == node_bytes(node)
    } else {
        r == seq![0xa0u8] + keccak256_digest(node_bytes(node))
    }
}

/// Whether the nodes of the proof, followed from the reference `r` on, lead along the key to what
/// was found there: a value, the hash of a subtree, or nothing.
pub open spec fn leads(
    r: Seq<u8>,
    key: Seq<u8>,
    proof_nodes: Seq<ProofNode>,
    found: Option<ItemValue>,
) -> bool
    decreases proof_nodes.len(),
{
    if proof_nodes.len() == 0 {
        match found {
            None => r == seq![0x80u8],
            Some(ItemValue::Hash(hash, _)) => key.len() == 0 && r == seq![0xa0u8] + hash,
            Some(ItemValue::Leaf(_)) => false,
        }
    } else {
        let rest = proof_nodes.skip(1);
        &&& refers_to(r, proof_nodes[0])
        &&& match proof_nodes[0] {
            ProofNode::Leaf(end, value) => {
                &&& rest.len() == 0
                &&& if end == key {
                    found == Some(ItemValue::Leaf(value))
                } else {
                    found is None
                }
            },
            ProofNode::Extension(path, child) => if key.len() >= path.len() && key.take(
                path.len() as int,
            ) == path {
                leads(child, key.skip(path.len() as int), rest, found)
            } else {
                rest.len() == 0 && found is None
            },
            ProofNode::Branch(slots) => if key.len() == 0 {
                rest.len() == 0 && found is None
            } else {
                slots.len() == 16 && key[0] < 16 && leads(
                    slots[key[0] as int],
                    key.skip(1),
                    rest,
                    found,
                )
            },
        }
    }
}

/// Whether no key starts with another one, and none occurs twice.
pub open spec fn all_apart(items: Seq<Item>) -> bool {
    forall|i: int, j: int|
        #![trigger items[i], items[j]]
        0 <= i < items.len() && 0 <= j < items.len() && i != j ==> lcp(items[i].key, items[j].key)
            < items[i].key.len() && lcp(items[i].key, items[j].key) < items[j].key.len()
}

/// Whether all keys are made of nibbles.
pub open spec fn all_keys_nibbles(items: Seq<Item>) -> bool {
    forall|i: int| #![trigger items[i]] 0 <= i < items.len() ==> all_nibbles(items[i].key)
}

/// Whether the path starts with the other one.
pub open spec fn starts_with(path: Seq<u8>, start: Seq<u8>) -> bool {
    path.len() >= start.len() && path.take(start.len() as int) == start
}

/// What the items have at the end of a key: the value or hash of the item with that key, or nothing
/// where no item has it. Of keys below the hash of a subtree nothing is said.
pub open spec fn stands_at(items: Seq<Item>, key: Seq<u8>, found: Option<ItemValue>) -> bool {
    match found {
        Some(value) => items.contains(Item { key, value }),
        None => forall|i: int|
            #![trigger items[i]]
            0 <= i < items.len() ==> items[i].key != key && (items[i].value is Hash
                ==> !starts_with(key, items[i].key)),
    }
}

/// Masks that have the same bits below `n` have as many there.
proof fn lemma_bits_agree(a: u16, b: u16, n: nat)
    requires
        n <= 16,
        forall|k: u8| k < n ==> #[trigger] has_bit(a, k) == has_bit(b, k),
    ensures
        bits_below(a, n) == bits_below(b, n),
    decreases n,
{
    if n > 0 {
        lemma_bits_agree(a, b, (n - 1) as nat);
        assert(has_bit(a, (n - 1) as u8) == has_bit(b, (n - 1) as u8));
    }
}

/// A mask without bits from `n` on has all its bits below.
proof fn lemma_bits_low(a: u16, n: nat, top: nat)
    requires
        n <= top <= 16,
        forall|k: u8| n <= k < top ==> !#[trigger] has_bit(a, k),
    ensures
        bits_below(a, n) == bits_below(a, top),
    decreases top,
{
    if n < top {
        lemma_bits_low(a, n, (top - 1) as nat);
        assert(!has_bit(a, (top - 1) as u8));
    }
}

/// What a subset lacks.
pub proof fn lemma_subset_bit(a: u16, b: u16, k: u8)
    requires
        is_subset(a, b),
        k < 16,
        !has_bit(b, k),
    ensures
        !has_bit(a, k),
{
    assert(a & (1u16 << k) == 0) by (bit_vector)
        requires
            a & b == a,
            b & (1u16 << k) == 0,
    ;
}

/// The children of a branch, nibble by nibble: there is one where a key has the nibble, and it is
/// the trie of the items that have it; the masks say of each child what that trie is.
pub proof fn lemma_children(items: Seq<Item>, d: nat, n: nat, m: u8)
    requires
        m < n <= 16,
        d <= longest(items),
    ensures
        ({
            let f = fan(items, d, n);
            let low = fan(items, d, m as nat);
            let below = with_nibble(items, d, m);
            let child = subtrie(below, d + 1);
            &&& has_bit(f.state_mask, m) <==> below.len() > 0
            &&& has_bit(f.tree_mask, m) <==> below.len() > 0 && child.in_db
            &&& has_bit(f.hash_mask, m) <==> below.len() > 0 && child.is_hash
            &&& bits_below(f.state_mask, m as nat) == low.rlps.len() <= f.rlps.len()
            &&& below.len() > 0 ==> low.rlps.len() < f.rlps.len() && f.rlps[low.rlps.len() as int]
                == child.rlp
        }),
    decreases n,
{
    let k = (n - 1) as u8;
    let f = fan(items, d, n);
    let rest = fan(items, d, (n - 1) as nat);
    let below = with_nibble(items, d, m);
    lemma_fan_masks(items, d, (n - 1) as nat);
    if k == m {
        assert(!has_bit(rest.state_mask, m));
        lemma_subset_bit(rest.tree_mask, rest.state_mask, m);
        lemma_subset_bit(rest.hash_mask, rest.state_mask, m);
        lemma_bits_low(rest.state_mask, m as nat, 16);
        if below.len() > 0 {
            lemma_set_bit(rest.state_mask, m, m);
            lemma_set_bit(rest.tree_mask, m, m);
            lemma_set_bit(rest.hash_mask, m, m);
            assert forall|j: u8| j < m implies #[trigger] has_bit(f.state_mask, j) == has_bit(
                rest.state_mask,
                j,
            ) by {
                lemma_set_bit(rest.state_mask, m, j);
            }
            lemma_bits_agree(f.state_mask, rest.state_mask, m as nat);
        }
    } else {
        lemma_children(items, d, (n - 1) as nat, m);
        if with_nibble(items, d, k).len() > 0 {
            lemma_set_bit(rest.state_mask, k, m);
            lemma_set_bit(rest.tree_mask, k, m);
            lemma_set_bit(rest.hash_mask, k, m);
            assert forall|j: u8| j < m implies #[trigger] has_bit(f.state_mask, j) == has_bit(
                rest.state_mask,
                j,
            ) by {
                lemma_set_bit(rest.state_mask, k, j);
            }
            lemma_bits_agree(f.state_mask, rest.state_mask, m as nat);
        }
    }
}

/// What the branch at depth `d` has for each nibble.
pub open spec fn slots_of(items: Seq<Item>, d: nat) -> Seq<Seq<u8>> {
    Seq::new(
        16,
        |n: int|
            if with_nibble(items, d, n as u8).len() == 0 {
                seq![0x80u8]
            } else {
                subtrie(with_nibble(items, d, n as u8), d + 1).rlp
            },
    )
}

/// A branch is encoded slot by slot.
proof fn lemma_slots(items: Seq<Item>, d: nat, n: nat)
    requires
        n <= 16,
        d <= longest(items),
    ensures
        branch_slots(fan(items, d, 16).rlps, fan(items, d, 16).state_mask, n) == joined(
            slots_of(items, d),
            n,
        ),
    decreases n,
{
    if n > 0 {
        lemma_slots(items, d, (n - 1) as nat);
        lemma_children(items, d, 16, (n - 1) as u8);
    }
}

/// The reference to a branch is one to its slots.
proof fn lemma_branch_refers(items: Seq<Item>, d: nat)
    requires
        d <= longest(items),
    ensures
        refers_to(fan(items, d, 16).reference(), ProofNode::Branch(slots_of(items, d))),
{
    lemma_slots(items, d, 16);
    reveal(branch_encoding);
    reveal(node_bytes);
}

/// The reference to a leaf is one to its path and value.
proof fn lemma_leaf_refers(key: Seq<u8>, value: Seq<u8>)
    ensures
        refers_to(leaf_reference(key, value), ProofNode::Leaf(key, value)),
{
    reveal(leaf_encoding);
    reveal(node_bytes);
}

/// The reference to an extension is one to its path and child.
proof fn lemma_extension_refers(path: Seq<u8>, child: Seq<u8>)
    ensures
        refers_to(extension_reference(path, child), ProofNode::Extension(path, child)),
{
    reveal(extension_encoding);
    reveal(node_bytes);
}

/// Where there is more than one item, all keys go on behind what they share.
pub proof fn lemma_keys_go_on(items: Seq<Item>, i: int)
    requires
        items.len() > 1,
        all_apart(items),
        0 <= i < items.len(),
    ensures
        items[i].key.len() > shared_len(items),
        shared_len(items) <= longest(items),
        starts_with(items[i].key, items[0].key.take(shared_len(items) as int)),
{
    let c = shared_len(items);
    let j = if i == 0 {
        1int
    } else {
        0int
    };
    lemma_shared_len(items, i);
    lemma_shared_len(items, j);
    lemma_longest(items, i);
    assert(items[i].key.take(c as int) == items[j].key.take(c as int));
    lemma_lcp_least(items[i].key, items[j].key, c);
}

/// The items with a nibble are those that have the property of having it.
pub proof fn lemma_choice(items: Seq<Item>, d: nat, n: u8, pred: spec_fn(Item) -> bool)
    requires
        forall|item: Item| #[trigger]
            pred(item) == (item.key.len() > d && item.key[d as int] == n),
    ensures
        with_nibble(items, d, n) == items.filter(pred),
    decreases items.len(),
{
    reveal_with_fuel(Seq::filter, 2);
    if items.len() > 0 {
        lemma_choice(items.drop_last(), d, n, pred);
        assert(pred(items.last()) == (items.last().key.len() > d && items.last().key[d as int]
            == n));
    }
}

/// Choosing the items with a nibble keeps them apart.
pub proof fn lemma_chosen_apart(items: Seq<Item>, d: nat, n: u8)
    requires
        all_apart(items),
    ensures
        all_apart(with_nibble(items, d, n)),
{
    let pred = |item: Item| item.key.len() > d && item.key[d as int] == n;
    lemma_filter_apart(items, pred);
    lemma_choice(items, d, n, pred);
}

/// What is chosen comes from the items.
pub proof fn lemma_filter_from(items: Seq<Item>, pred: spec_fn(Item) -> bool, i: int)
    requires
        0 <= i < items.filter(pred).len(),
    ensures
        items.contains(items.filter(pred)[i]),
        pred(items.filter(pred)[i]),
    decreases items.len(),
{
    reveal_with_fuel(Seq::filter, 2);
    if items.len() > 0 {
        let rest = items.drop_last();
        let kept = rest.filter(pred);
        if i < kept.len() {
            lemma_filter_from(rest, pred, i);
            let j = choose|j: int| 0 <= j < rest.len() && rest[j] == kept[i];
            assert(items[j] == kept[i]);
            assert(items.filter(pred)[i] == kept[i]);
        } else {
            assert(items.filter(pred)[i] == items.last());
            assert(items[items.len() - 1] == items.last());
        }
    }
}

/// What has the property is chosen.
pub proof fn lemma_filter_into(items: Seq<Item>, pred: spec_fn(Item) -> bool, i: int)
    requires
        0 <= i < items.len(),
        pred(items[i]),
    ensures
        items.filter(pred).contains(items[i]),
    decreases items.len(),
{
    reveal_with_fuel(Seq::filter, 2);
    let rest = items.drop_last();
    let kept = rest.filter(pred);
    let all = items.filter(pred);
    if i < rest.len() {
        assert(rest[i] == items[i]);
        lemma_filter_into(rest, pred, i);
        let j = choose|j: int| 0 <= j < kept.len() && kept[j] == items[i];
        assert(all[j] == items[i]);
    } else {
        assert(all[all.len() - 1] == items[i]);
    }
}

/// Choosing among items keeps them apart.
pub proof fn lemma_filter_apart(items: Seq<Item>, pred: spec_fn(Item) -> bool)
    requires
        all_apart(items),
    ensures
        all_apart(items.filter(pred)),
    decreases items.len(),
{
    reveal_with_fuel(Seq::filter, 2);
    if items.len() > 0 {
        let rest = items.drop_last();
        assert(all_apart(rest)) by {
            assert forall|i: int, j: int|
                #![trigger rest[i], rest[j]]
                0 <= i < rest.len() && 0 <= j < rest.len() && i != j implies lcp(
                rest[i].key,
                rest[j].key,
            ) < rest[i].key.len() && lcp(rest[i].key, rest[j].key) < rest[j].key.len() by {
                assert(rest[i] == items[i] && rest[j] == items[j]);
            }
        }
        lemma_filter_apart(rest, pred);
        let kept = rest.filter(pred);
        if pred(items.last()) {
            let all = kept.push(items.last());
            assert(items.filter(pred) == all);
            assert forall|i: int, j: int|
                #![trigger all[i], all[j]]
                0 <= i < all.len() && 0 <= j < all.len() && i != j implies lcp(
                all[i].key,
                all[j].key,
            ) < all[i].key.len() && lcp(all[i].key, all[j].key) < all[j].key.len() by {
                let end = items.len() - 1;
                if i < kept.len() && j < kept.len() {
                    assert(kept[i] == all[i] && kept[j] == all[j]);
                } else if i < kept.len() {
                    lemma_filter_from(rest, pred, i);
                    let a = choose|a: int| 0 <= a < rest.len() && rest[a] == kept[i];
                    assert(items[a] == all[i] && items[end] == all[j]);
                } else {
                    lemma_filter_from(rest, pred, j);
                    let a = choose|a: int| 0 <= a < rest.len() && rest[a] == kept[j];
                    assert(items[a] == all[j] && items[end] == all[i]);
                }
            }
        }
    }
}

/// Below a branch at `path`, the items with one more nibble start with the longer path, are of
/// nibbles and apart.
pub proof fn lemma_below(items: Seq<Item>, path: Seq<u8>, n: u8)
    requires
        all_start_with(items, path),
        all_apart(items),
        all_keys_nibbles(items),
    ensures
        all_start_with(with_nibble(items, path.len(), n), path.push(n)),
        all_apart(with_nibble(items, path.len(), n)),
        all_keys_nibbles(with_nibble(items, path.len(), n)),
{
    let d = path.len();
    let below = with_nibble(items, d, n);
    let longer = path.push(n);
    lemma_chosen_apart(items, d, n);
    assert forall|i: int| #![trigger below[i]] 0 <= i < below.len() implies below[i].key.len()
        >= longer.len() && below[i].key.take(longer.len() as int) == longer && all_nibbles(
        below[i].key,
    ) by {
        lemma_with_nibble_from(items, d, n, i);
        let j = choose|j: int| 0 <= j < items.len() && items[j] == below[i];
        assert(items[j].key.take(d as int) == path);
        assert(below[i].key.take(longer.len() as int) =~= longer) by {
            assert forall|k: int| 0 <= k < d implies below[i].key[k] == path[k] by {
                assert(below[i].key.take(d as int)[k] == path[k]);
            }
        }
    }
}

/// From the top of a trie, seen from depth `d`, the rest of each key leads to what stands there.
pub proof fn lemma_leads(items: Seq<Item>, d: nat, key: Seq<u8>, found: Option<ItemValue>) -> (r:
    Seq<ProofNode>)
    requires
        items.len() > 0,
        d <= key.len(),
        all_start_with(items, key.take(d as int)),
        all_apart(items),
        all_keys_nibbles(items),
        all_nibbles(key),
        stands_at(items, key, found),
    ensures
        leads(subtrie(items, d).rlp, key.skip(d as int), r, found),
    decreases room(items, d),
{
    reveal_with_fuel(leads, 2);
    let start = key.take(d as int);
    let tail = key.skip(d as int);
    if items.len() == 1 {
        let item = items[0];
        assert(item.key.take(d as int) == start);
        assert(item.key =~= start + item.key.skip(d as int));
        assert(key =~= start + tail);
        if found is Some {
            let value = found->Some_0;
            let at = choose|at: int| 0 <= at < items.len() && items[at] == Item { key, value };
            assert(item == Item { key, value });
        }
        match item.value {
            ItemValue::Leaf(value) => {
                let node = ProofNode::Leaf(item.key.skip(d as int), value);
                lemma_leaf_refers(item.key.skip(d as int), value);
                let r = seq![node];
                assert(r.skip(1) =~= Seq::empty());
                r
            },
            ItemValue::Hash(hash, _) => {
                if item.key.len() == d {
                    assert(item.key =~= start);
                    assert(starts_with(key, item.key));
                    assert(found is Some);
                    assert(key =~= start);
                    Seq::empty()
                } else {
                    let path = item.key.skip(d as int);
                    let child = word_reference(hash);
                    lemma_extension_refers(path, child);
                    let r = seq![ProofNode::Extension(path, child)];
                    assert(r.skip(1) =~= Seq::empty());
                    if starts_with(tail, path) {
                        assert(key.take(item.key.len() as int) =~= item.key) by {
                            assert forall|k: int| 0 <= k < item.key.len() implies key[k]
                                == item.key[k] by {
                                if k < d {
                                    assert(item.key.take(d as int)[k] == start[k]);
                                } else {
                                    assert(tail.take(path.len() as int)[k - d] == path[k - d]);
                                }
                            }
                        }
                        assert(found is Some);
                        assert(tail.skip(path.len() as int).len() == 0);
                    }
                    if found is Some {
                        assert(tail.take(path.len() as int) =~= path);
                    }
                    r
                }
            },
        }
    } else {
        let c = shared_len(items);
        lemma_keys_go_on(items, 0);
        lemma_all_share(items, start);
        let longer = items[0].key.take(c as int);
        let f = fan(items, c, 16);
        let slots = slots_of(items, c);
        let branch = ProofNode::Branch(slots);
        lemma_branch_refers(items, c);
        assert(items[0].key.take(d as int) == start);
        assert(longer.take(d as int) =~= start);
        let path = longer.skip(d as int);
        if starts_with(key, longer) {
            let behind = key.skip(c as int);
            let rest: Seq<ProofNode> = if key.len() == c {
                if found is Some {
                    let value = found->Some_0;
                    let at = choose|at: int|
                        0 <= at < items.len() && items[at] == Item { key, value };
                    lemma_keys_go_on(items, at);
                }
                Seq::empty()
            } else {
                let n = key[c as int];
                let below = with_nibble(items, c, n);
                if below.len() == 0 {
                    if found is Some {
                        let value = found->Some_0;
                        let at = choose|at: int|
                            0 <= at < items.len() && items[at] == Item { key, value };
                        lemma_with_nibble_some(items, c, n, at);
                    }
                    assert(slots[n as int] == seq![0x80u8]);
                    Seq::empty()
                } else {
                    assert(all_start_with(items, longer)) by {
                        assert forall|i: int| #![trigger items[i]] 0 <= i < items.len() implies
                            items[i].key.len() >= longer.len() && items[i].key.take(
                            longer.len() as int,
                        ) == longer by {
                            lemma_keys_go_on(items, i);
                        }
                    }
                    lemma_below(items, longer, n);
                    lemma_longest_with_nibble(items, c, n);
                    assert(key.take(c as int + 1) =~= longer.push(n));
                    let pred = |item: Item| item.key.len() > c && item.key[c as int] == n;
                    lemma_choice(items, c, n, pred);
                    match found {
                        Some(value) => {
                            let it = Item { key, value };
                            let at = choose|at: int| 0 <= at < items.len() && items[at] == it;
                            lemma_filter_into(items, pred, at);
                            assert(below.contains(it));
                        },
                        None => {
                            assert forall|i: int|
                                #![trigger below[i]]
                                0 <= i < below.len() implies below[i].key != key && (
                            below[i].value is Hash ==> !starts_with(key, below[i].key)) by {
                                lemma_filter_from(items, pred, i);
                                let at = choose|at: int|
                                    0 <= at < items.len() && items[at] == below[i];
                                assert(items[at] == below[i]);
                            }
                        },
                    }
                    assert(stands_at(below, key, found));
                    assert(slots[n as int] == subtrie(below, c + 1).rlp);
                    assert(behind.skip(1) =~= key.skip(c as int + 1));
                    lemma_leads(below, c + 1, key, found)
                }
            };
            let from_branch = seq![branch] + rest;
            assert(from_branch.skip(1) =~= rest);
            assert(leads(f.reference(), behind, from_branch, found));
            if c == d {
                assert(behind == tail);
                from_branch
            } else {
                lemma_extension_refers(path, f.reference());
                let r = seq![ProofNode::Extension(path, f.reference())] + from_branch;
                assert(r.skip(1) =~= from_branch);
                assert(tail.take(path.len() as int) =~= path) by {
                    assert forall|k: int| 0 <= k < path.len() implies tail[k] == path[k] by {
                        assert(key.take(c as int)[d + k] == longer[d + k]);
                    }
                }
                assert(tail.skip(path.len() as int) =~= behind);
                r
            }
        } else {
            if found is Some {
                let value = found->Some_0;
                let at = choose|at: int| 0 <= at < items.len() && items[at] == Item { key, value };
                lemma_keys_go_on(items, at);
            }
            if c == d {
                assert(longer =~= start);
            }
            lemma_extension_refers(path, f.reference());
            let r = seq![ProofNode::Extension(path, f.reference())];
            assert(r.skip(1) =~= Seq::empty());
            if starts_with(tail, path) {
                assert(key.take(c as int) =~= longer) by {
                    assert forall|k: int| 0 <= k < c implies key[k] == longer[k] by {
                        if k < d {
                            assert(longer.take(d as int)[k] == start[k]);
                        } else {
                            assert(tail.take(path.len() as int)[k - d] == path[k - d]);
                        }
                    }
                }
            }
            r
        }
    }
}

/// The root of a trie commits to its items. For every key there is a proof from the root that leads
/// to what the items have at the end of that key: exactly the value or the hash that was given for
/// it; and where no item has the key, a proof that leads to nothing.
pub proof fn law_root_commits_to_the_items(
    items: Seq<Item>,
    key: Seq<u8>,
    found: Option<ItemValue>,
) -> (r: (Seq<u8>, Seq<ProofNode>))
    requires
        items.len() > 0,
        all_apart(items),
        all_keys_nibbles(items),
        all_nibbles(key),
        stands_at(items, key, found),
    ensures
        trie_root(items) == if r.0.len() == 33 {
            r.0.subrange(1, 33)
        } else {
            keccak256_digest(r.0)
        },
        leads(r.0, key, r.1, found),
{
    assert(all_start_with(items, key.take(0))) by {
        assert forall|i: int| #![trigger items[i]] 0 <= i < items.len() implies items[i].key.take(
            0,
        ) == key.take(0) by {
            assert(items[i].key.take(0) =~= key.take(0));
        }
    }
    assert(key.skip(0) =~= key);
    let nodes = lemma_leads(items, 0, key, found);
    (subtrie(items, 0).rlp, nodes)
}

/// The trie of one leaf, whatever its key and value are, is the list of its path with the flag of a
/// leaf and of its value; and that of one hash is the list of its path without that flag and of the
/// hash.
pub proof fn law_trie_of_one_item(key: Seq<u8>, value: Seq<u8>, hash: Seq<u8>, in_db: bool)
    ensures
        ({
            let leaf = rlp_list(rlp_string(hex_prefix(key, true)) + rlp_string(value));
            let behind = rlp_list(
                rlp_string(hex_prefix(key, false)) + (seq![0xa0u8] + hash),
            );
            &&& trie_root(seq![Item { key, value: ItemValue::Leaf(value) }]) == reference_hash(
                reference(leaf),
            )
            &&& key.len() > 0 ==> trie_root(
                seq![Item { key, value: ItemValue::Hash(hash, in_db) }],
            ) == reference_hash(reference(behind))
        }),
{
    reveal(leaf_encoding);
    reveal(extension_encoding);
    assert(key.skip(0) =~= key);
}

/// A reference of 33 bytes holds the hash behind its first byte; any other one is hashed. Bytes
/// are referred to by themselves where they are fewer than 32, and by their digest otherwise.
pub proof fn law_references(bytes: Seq<u8>)
    ensures
        reference_hash(bytes) == if bytes.len() == 33 {
            bytes.subrange(1, 33)
        } else {
            keccak256_digest(bytes)
        },
        reference(bytes) == if bytes.len() < 32 {
            bytes
        } else {
            seq![0xa0u8] + keccak256_digest(bytes)
        },
{
}

/// Whether each key comes after all before it and extends none of them, and all are of nibbles.
pub open spec fn all_follow(items: Seq<Item>) -> bool {
    &&& forall|i: int, j: int|
        #![trigger items[i], items[j]]
        0 <= i < j < items.len() ==> follows(items[i].key, items[j].key)
    &&& all_keys_nibbles(items)
}

/// Keys of which each follows the others are apart.
pub proof fn lemma_follow_apart(items: Seq<Item>)
    requires
        all_follow(items),
    ensures
        all_apart(items),
{
    assert forall|i: int, j: int|
        #![trigger items[i], items[j]]
        0 <= i < items.len() && 0 <= j < items.len() && i != j implies lcp(
        items[i].key,
        items[j].key,
    ) < items[i].key.len() && lcp(items[i].key, items[j].key) < items[j].key.len() by {
        let (a, b) = (items[i].key, items[j].key);
        if j < i {
            assert(follows(b, a));
            lemma_lcp(b, a);
            let k = lcp(b, a);
            assert forall|m: int| 0 <= m < k implies #[trigger] a[m] == b[m] by {
                assert(b[m] == a[m]);
            }
            lemma_lcp_unique(a, b, k);
        }
    }
}

/// One key more, which follows the last one.
pub proof fn lemma_follow_push(items: Seq<Item>, item: Item)
    requires
        all_follow(items),
        all_nibbles(item.key),
        items.len() > 0 ==> follows(items.last().key, item.key),
    ensures
        all_follow(items.push(item)),
{
    let all = items.push(item);
    assert forall|i: int, j: int|
        #![trigger all[i], all[j]]
        0 <= i < j < all.len() implies follows(all[i].key, all[j].key) by {
        if j < items.len() {
            assert(follows(items[i].key, items[j].key));
        } else if i < items.len() - 1 {
            assert(follows(items[i].key, items[items.len() - 1].key));
            lemma_follows_transitive(items[i].key, items.last().key, item.key);
        }
    }
}

/// One key follows another where they are alike up to some position, both go on there, and the
/// other has the smaller nibble.
pub proof fn law_follows(a: Seq<u8>, b: Seq<u8>)
    ensures
        follows(a, b) <==> exists|k: int|
            0 <= k < a.len() && k < b.len() && #[trigger] a.take(k) == b.take(k) && a[k] < b[k],
{
    lemma_lcp(a, b);
    if follows(a, b) {
        let k = lcp(a, b) as int;
        assert(a.take(k) =~= b.take(k));
    }
    if exists|k: int|
        0 <= k < a.len() && k < b.len() && #[trigger] a.take(k) == b.take(k) && a[k] < b[k] {
        let k = choose|k: int|
            0 <= k < a.len() && k < b.len() && #[trigger] a.take(k) == b.take(k) && a[k] < b[k];
        assert forall|j: int| 0 <= j < k implies #[trigger] a[j] == b[j] by {
            assert(a.take(k)[j] == b.take(k)[j]);
        }
        lemma_lcp_unique(a, b, k as nat);
    }
}

} // verus!
