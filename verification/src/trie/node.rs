//! Trie nodes that are not encoded yet.
use crate::trie::form::{form_rlp, form_rlps, is_full, is_long, lemma_form_rlps_from, NodeForm};
use crate::trie::mask::{bits_below, TrieMask};
use crate::trie::nibbles::{all_nibbles, Nibbles};
use crate::trie::rlp::{
    all_hashes, branch_rlp, byte_views, child_hashes, extension_rlp, hashes_of, leaf_rlp,
    lemma_branch_long, lemma_extension_long, lemma_leaf_long, lemma_masked_hashes, masked_children,
    word_rlp, word_views,
};
use crate::trie::updates::copy_bytes;
use std::sync::Arc;
use vstd::prelude::*;

verus! {

/// A leaf node: the rest of its key, and its value.
#[derive(Debug)]
pub struct LeafNode {
    pub key: Nibbles,
    pub value: Vec<u8>,
}

/// A trie node whose encoding, and with it the hashing of all that is below it, is left for later.
///
/// A branch holds the stack of nodes from which it was made, the mask of its children, the mask of
/// those among them that count as hashed, the index of its first child in that stack, and the
/// number of the slot to which it reports once it is encoded. The stack is shared with the copies
/// of the branch.
#[derive(Debug)]
pub enum RawRlpNode {
    Leaf(LeafNode),
    Word([u8; 32]),
    Extension((Nibbles, Box<RawRlpNode>)),
    Branch((Arc<Vec<RawRlpNode>>, TrieMask, TrieMask, usize, Option<usize>)),
    Default,
}

impl Default for RawRlpNode {
    fn default() -> (r: Self)
        ensures
            r is Default,
    {
        RawRlpNode::Default
    }
}

/// What a branch reports when it is encoded.
#[derive(Debug)]
pub struct BranchReport {
    /// The hashes of its hashed children.
    pub hashes: Vec<[u8; 32]>,
}

/// What a branch has to report.
pub struct ReportModel {
    /// The references to its hashed children.
    pub hashed: Seq<Seq<u8>>,
}

/// What the node holds, whatever it reports.
pub open spec fn node_form(node: RawRlpNode) -> NodeForm
    decreases node,
{
    match node {
        RawRlpNode::Leaf(leaf) => NodeForm::Leaf(leaf.key@, leaf.value@),
        RawRlpNode::Word(word) => NodeForm::Word(word@),
        RawRlpNode::Extension(ext) => NodeForm::Extension(ext.0@, Box::new(node_form(*ext.1))),
        RawRlpNode::Branch(branch) => NodeForm::Branch {
            nodes: node_forms(branch.0@),
            state_mask: branch.1.bits,
            hash_mask: branch.2.bits,
            first: branch.3 as nat,
        },
        RawRlpNode::Default => NodeForm::Unset,
    }
}

/// What the nodes hold.
pub open spec fn node_forms(nodes: Seq<RawRlpNode>) -> Seq<NodeForm>
    decreases nodes,
{
    if nodes.len() == 0 {
        Seq::empty()
    } else {
        node_forms(nodes.drop_last()).push(node_form(nodes[nodes.len() - 1]))
    }
}

/// `node_forms` lists what the nodes hold one by one.
pub proof fn lemma_node_forms(nodes: Seq<RawRlpNode>)
    ensures
        node_forms(nodes).len() == nodes.len(),
        forall|i: int|
            0 <= i < nodes.len() ==> #[trigger] node_forms(nodes)[i] == node_form(nodes[i]),
    decreases nodes.len(),
{
    if nodes.len() > 0 {
        lemma_node_forms(nodes.drop_last());
    }
}

/// What is long and full has only such nodes below it.
proof fn lemma_long_below(node: RawRlpNode)
    requires
        is_long(node_form(node)),
        is_full(node_form(node)),
    ensures
        match node {
            RawRlpNode::Extension(ext) => is_long(node_form(*ext.1)) && is_full(node_form(*ext.1)),
            RawRlpNode::Branch(branch) => {
                &&& branch.3 < branch.0@.len()
                &&& forall|i: int|
                    branch.3 <= i < branch.0@.len() ==> is_long(
                        node_form(#[trigger] branch.0@[i]),
                    ) && is_full(node_form(branch.0@[i]))
            },
            _ => true,
        },
{
    if let RawRlpNode::Branch(branch) = node {
        lemma_node_forms(branch.0@);
        let form = node_form(node);
        assert(form->nodes == node_forms(branch.0@));
        assert forall|i: int| branch.3 <= i < branch.0@.len() implies is_long(
            node_form(#[trigger] branch.0@[i]),
        ) && is_full(node_form(branch.0@[i])) by {
            assert(is_long(form->nodes[i]));
            assert(is_full(form->nodes[i]));
        }
    }
}

/// Whether the node can be encoded, and every branch in it that has a slot has to report what
/// `reports` says of that slot.
pub open spec fn node_ok(node: RawRlpNode, reports: Seq<ReportModel>) -> bool
    decreases node,
{
    match node {
        RawRlpNode::Leaf(leaf) => all_nibbles(leaf.key@),
        RawRlpNode::Word(_) => true,
        RawRlpNode::Extension(ext) => all_nibbles(ext.0@) && node_ok(*ext.1, reports),
        RawRlpNode::Branch(branch) => {
            &&& branch.3 <= branch.0@.len()
            &&& branch.0@.len() - branch.3 == bits_below(branch.1.bits, 16)
            &&& forall|i: int|
                branch.3 <= i < branch.0@.len() ==> node_ok(#[trigger] branch.0@[i], reports)
            &&& branch.4 matches Some(slot) ==> slot < reports.len() && reports[slot as int]
                == branch_report(branch.0@.skip(branch.3 as int), branch.1.bits, branch.2.bits)
        },
        RawRlpNode::Default => false,
    }
}

/// More slots leave what is known of a node.
pub proof fn lemma_node_ok_extend(node: RawRlpNode, reports: Seq<ReportModel>, next: ReportModel)
    requires
        node_ok(node, reports),
    ensures
        node_ok(node, reports.push(next)),
    decreases node,
{
    match node {
        RawRlpNode::Extension(ext) => {
            lemma_node_ok_extend(*ext.1, reports, next);
        },
        RawRlpNode::Branch(branch) => {
            assert forall|i: int| branch.3 <= i < branch.0@.len() implies node_ok(
                #[trigger] branch.0@[i],
                reports.push(next),
            ) by {
                lemma_node_ok_extend(branch.0@[i], reports, next);
            }
        },
        _ => {},
    }
}

/// What a branch with the given children has to report.
pub open spec fn branch_report(
    children: Seq<RawRlpNode>,
    state_mask: u16,
    hash_mask: u16,
) -> ReportModel {
    ReportModel {
        hashed: masked_children(form_rlps(node_forms(children)), state_mask, hash_mask, 16),
    }
}

/// Whether the node is, or contains, a branch that reports to `slot`.
pub open spec fn has_slot(node: RawRlpNode, slot: usize) -> bool
    decreases node,
{
    match node {
        RawRlpNode::Extension(ext) => has_slot(*ext.1, slot),
        RawRlpNode::Branch(branch) => {
            ||| branch.4 == Some(slot)
            ||| exists|i: int|
                branch.3 <= i < branch.0@.len() && has_slot(#[trigger] branch.0@[i], slot)
        },
        _ => false,
    }
}

/// Whether the node is, or holds anywhere, a branch with `slot`.
pub open spec fn mentions(node: RawRlpNode, slot: usize) -> bool
    decreases node,
{
    match node {
        RawRlpNode::Extension(ext) => mentions(*ext.1, slot),
        RawRlpNode::Branch(branch) => {
            ||| branch.4 == Some(slot)
            ||| exists|i: int| 0 <= i < branch.0@.len() && mentions(#[trigger] branch.0@[i], slot)
        },
        _ => false,
    }
}

/// Whether one of the nodes is, or holds anywhere, a branch with `slot`.
pub open spec fn any_mentions(nodes: Seq<RawRlpNode>, slot: usize) -> bool {
    exists|i: int| 0 <= i < nodes.len() && mentions(#[trigger] nodes[i], slot)
}

/// Whether the nodes hold the same and report alike.
pub open spec fn same_node(a: RawRlpNode, b: RawRlpNode) -> bool {
    &&& node_form(a) == node_form(b)
    &&& forall|reports: Seq<ReportModel>| #[trigger] node_ok(a, reports) == node_ok(b, reports)
    &&& forall|slot: usize| #[trigger] has_slot(a, slot) == has_slot(b, slot)
    &&& forall|slot: usize| #[trigger] mentions(a, slot) == mentions(b, slot)
}

impl Clone for RawRlpNode {
    fn clone(&self) -> (r: Self)
        ensures
            same_node(r, *self),
            *self is Word || *self is Branch || *self is Default ==> r == *self,
        decreases self,
    {
        match self {
            RawRlpNode::Leaf(leaf) => RawRlpNode::Leaf(
                LeafNode { key: leaf.key.clone(), value: copy_bytes(leaf.value.as_slice()) },
            ),
            RawRlpNode::Word(word) => RawRlpNode::Word(*word),
            RawRlpNode::Extension(ext) => {
                let child: RawRlpNode = (*ext.1).clone();
                assert(same_node(child, *ext.1));
                let r = RawRlpNode::Extension((ext.0.clone(), Box::new(child)));
                assert forall|reports: Seq<ReportModel>| #[trigger]
                    node_ok(r, reports) == node_ok(*self, reports) by {
                    assert(node_ok(child, reports) == node_ok(*ext.1, reports));
                }
                assert forall|slot: usize| #[trigger] has_slot(r, slot) == has_slot(
                    *self,
                    slot,
                ) by {
                    assert(has_slot(child, slot) == has_slot(*ext.1, slot));
                }
                assert forall|slot: usize| #[trigger] mentions(r, slot) == mentions(
                    *self,
                    slot,
                ) by {
                    assert(mentions(child, slot) == mentions(*ext.1, slot));
                }
                r
            },
            RawRlpNode::Branch(branch) => RawRlpNode::Branch(
                (branch.0.clone(), branch.1, branch.2, branch.3, branch.4),
            ),
            RawRlpNode::Default => RawRlpNode::Default,
        }
    }
}

/// A copy of the nodes.
pub(crate) fn clone_nodes(nodes: &Vec<RawRlpNode>) -> (r: Vec<RawRlpNode>)
    ensures
        r@.len() == nodes@.len(),
        forall|i: int|
            0 <= i < nodes@.len() ==> same_node(#[trigger] r@[i], nodes@[i]),
        node_forms(r@) == node_forms(nodes@),
{
    let mut out: Vec<RawRlpNode> = Vec::new();
    while out.len() < nodes.len()
        invariant
            out@.len() <= nodes@.len(),
            forall|i: int| 0 <= i < out@.len() ==> same_node(#[trigger] out@[i], nodes@[i]),
        decreases nodes@.len() - out@.len(),
    {
        let copy = nodes[out.len()].clone();
        out.push(copy);
    }
    proof {
        lemma_node_forms(out@);
        lemma_node_forms(nodes@);
        assert(node_forms(out@) =~= node_forms(nodes@)) by {
            assert forall|i: int| 0 <= i < out@.len() implies #[trigger] node_forms(out@)[i]
                == node_forms(nodes@)[i] by {
                assert(same_node(out@[i], nodes@[i]));
            }
        }
    }
    out
}

/// Whether the branch of `slot` has been encoded. It has reported, unless one of its hashed
/// children is too short to be referred to by its hash.
pub open spec fn reported(
    inbox: Seq<Option<BranchReport>>,
    reports: Seq<ReportModel>,
    slot: usize,
) -> bool {
    match inbox[slot as int] {
        Some(report) => {
            &&& all_hashes(reports[slot as int].hashed)
            &&& word_views(report.hashes@) == hashes_of(reports[slot as int].hashed)
        },
        None => !all_hashes(reports[slot as int].hashed),
    }
}

impl RawRlpNode {
    /// Encodes the node and everything below it, and files the reports of the branches.
    pub(crate) fn rlp(
        &self,
        inbox: &mut Vec<Option<BranchReport>>,
        Ghost(reports): Ghost<Seq<ReportModel>>,
    ) -> (r: Vec<u8>)
        requires
            node_ok(*self, reports),
            old(inbox)@.len() == reports.len(),
        ensures
            r@ == form_rlp(node_form(*self)),
            r@.len() <= 33,
            final(inbox)@.len() == reports.len(),
            forall|slot: usize| #[trigger]
                has_slot(*self, slot) ==> slot < reports.len() && reported(
                    final(inbox)@,
                    reports,
                    slot,
                ),
            forall|slot: usize|
                slot < reports.len() && !has_slot(*self, slot)
                    ==> #[trigger] final(inbox)@[slot as int] == old(inbox)@[slot as int],
            is_long(node_form(*self)) && is_full(node_form(*self)) ==> r@.len() == 33,
            is_long(node_form(*self)) && is_full(node_form(*self)) ==> forall|slot: usize|
                #[trigger]
                has_slot(*self, slot) ==> all_hashes(reports[slot as int].hashed),
        decreases self,
    {
        match self {
            RawRlpNode::Leaf(leaf) => {
                proof {
                    if leaf.value@.len() >= 32 {
                        lemma_leaf_long(leaf.key@, leaf.value@);
                    }
                }
                leaf_rlp(leaf.key.as_slice(), leaf.value.as_slice())
            },
            RawRlpNode::Word(word) => word_rlp(word),
            RawRlpNode::Extension(ext) => {
                let child = ext.1.rlp(inbox, Ghost(reports));
                proof {
                    assert forall|slot: usize| #[trigger] has_slot(*self, slot) == has_slot(
                        *ext.1,
                        slot,
                    ) by {}
                    if is_long(node_form(*self)) && is_full(node_form(*self)) {
                        lemma_long_below(*self);
                        lemma_extension_long(ext.0@, child@);
                    }
                }
                extension_rlp(ext.0.as_slice(), child.as_slice())
            },
            RawRlpNode::Branch(branch) => {
                let ghost before = inbox@;
                let mut children: Vec<Vec<u8>> = Vec::new();
                let first: usize = branch.3;
                let mut i: usize = first;
                let ghost long = is_long(node_form(*self)) && is_full(node_form(*self));
                assert(forall|j: int|
                    first <= j < branch.0@.len() ==> node_ok(#[trigger] branch.0@[j], reports));
                proof {
                    lemma_node_forms(branch.0@);
                    if long {
                        lemma_long_below(*self);
                    }
                }
                while i < branch.0.len()
                    invariant
                        *self == RawRlpNode::Branch(*branch),
                        forall|j: int|
                            first <= j < branch.0@.len() ==> node_ok(
                                #[trigger] branch.0@[j],
                                reports,
                            ),
                        forall|j: int|
                            long && first <= j < branch.0@.len() ==> is_long(
                                node_form(#[trigger] branch.0@[j]),
                            ) && is_full(node_form(branch.0@[j])),
                        first == branch.3 <= i <= branch.0@.len(),
                        children@.len() == i - first,
                        forall|j: int|
                            0 <= j < children@.len() ==> (#[trigger] children@[j])@ == form_rlp(
                                node_form(branch.0@[first + j]),
                            ) && children@[j]@.len() <= 33 && (long ==> children@[j]@.len()
                                == 33),
                        long ==> forall|j: int, slot: usize|
                            first <= j < i && #[trigger] has_slot(branch.0@[j], slot)
                                ==> all_hashes(reports[slot as int].hashed),
                        inbox@.len() == reports.len() == before.len(),
                        forall|j: int, slot: usize|
                            first <= j < i && #[trigger] has_slot(branch.0@[j], slot) ==> slot
                                < reports.len() && reported(inbox@, reports, slot),
                        forall|slot: usize|
                            slot < reports.len() && (forall|j: int|
                                first <= j < i ==> !#[trigger] has_slot(branch.0@[j], slot))
                                ==> #[trigger] inbox@[slot as int] == before[slot as int],
                    decreases branch.0@.len() - i,
                {
                    assert(node_ok(branch.0@[i as int], reports));
                    assert(decreases_to!(self => self->Branch_0));
                    assert(decreases_to!(self => self->Branch_0.0));
                    assert(decreases_to!(self => self->Branch_0.0@));
                    assert(decreases_to!(self => self->Branch_0.0@[i as int]));
                    let ghost filed = inbox@;
                    let child = branch.0[i].rlp(inbox, Ghost(reports));
                    children.push(child);
                    proof {
                        assert forall|j: int, slot: usize|
                            first <= j < i + 1 && #[trigger] has_slot(
                                branch.0@[j],
                                slot,
                            ) implies slot < reports.len() && reported(inbox@, reports, slot) by {
                            if !has_slot(branch.0@[i as int], slot) {
                                assert(inbox@[slot as int] == filed[slot as int]);
                            }
                        }
                        assert forall|slot: usize|
                            slot < reports.len() && (forall|j: int|
                                first <= j < i + 1 ==> !#[trigger] has_slot(
                                    branch.0@[j],
                                    slot,
                                )) implies #[trigger] inbox@[slot as int]
                            == before[slot as int] by {
                            assert(!has_slot(branch.0@[i as int], slot));
                            assert(filed[slot as int] == before[slot as int]);
                        }
                    }
                    i = i + 1;
                }
                let ghost raw = branch.0@.skip(first as int);
                proof {
                    lemma_node_forms(raw);
                    lemma_form_rlps_from(node_forms(branch.0@), first as nat);
                    assert(node_forms(branch.0@).skip(first as int) =~= node_forms(raw));
                    assert(byte_views(children@) =~= form_rlps(node_forms(raw)));
                    if long {
                        lemma_branch_long(byte_views(children@), branch.1.bits);
                        lemma_masked_hashes(
                            byte_views(children@),
                            branch.1.bits,
                            branch.2.bits,
                            16,
                        );
                    }
                }
                let r = branch_rlp(&children, branch.1.bits);
                assert(r@ == form_rlp(node_form(*self)));
                assert forall|slot: usize| long && #[trigger] has_slot(
                    *self,
                    slot,
                ) implies all_hashes(reports[slot as int].hashed) by {
                    if branch.4 != Some(slot) {
                        let j = choose|j: int|
                            first <= j < branch.0@.len() && has_slot(
                                #[trigger] branch.0@[j],
                                slot,
                            );
                        assert(has_slot(branch.0@[j], slot));
                    }
                }
                if let Some(slot) = branch.4 {
                    let ghost filed = inbox@;
                    inbox[slot] = match child_hashes(&children, branch.1, branch.2) {
                        Some(hashes) => Some(BranchReport { hashes }),
                        None => None,
                    };
                    assert(reported(inbox@, reports, slot));
                    assert forall|s: usize|
                        s < reports.len() && s != slot implies #[trigger] inbox@[s as int]
                        == filed[s as int] by {}
                }
                proof {
                    assert forall|s: usize| #[trigger] has_slot(*self, s) implies s < reports.len()
                        && reported(inbox@, reports, s) by {
                        if branch.4 != Some(s) {
                            let j = choose|j: int|
                                first <= j < branch.0@.len() && has_slot(
                                    #[trigger] branch.0@[j],
                                    s,
                                );
                            assert(has_slot(branch.0@[j], s));
                        }
                    }
                    assert forall|s: usize|
                        s < reports.len() && !has_slot(
                            *self,
                            s,
                        ) implies #[trigger] inbox@[s as int] == before[s as int] by {
                        assert(branch.4 != Some(s));
                        assert forall|j: int|
                            first <= j < branch.0@.len() implies !#[trigger] has_slot(
                            branch.0@[j],
                            s,
                        ) by {}
                    }
                }
                r
            },
            RawRlpNode::Default => Vec::new(),
        }
    }
}

/// Calls `std::sync::Arc::into_inner`: the nodes, or nothing where they are still shared.
#[verifier::external_body]
fn unshared(nodes: Arc<Vec<RawRlpNode>>) -> (r: Option<Vec<RawRlpNode>>)
    ensures
        r matches Some(own) ==> own@ == nodes@,
{
    Arc::into_inner(nodes)
}

/// The number of nodes that the node holds anywhere, itself counted.
spec fn node_size(node: RawRlpNode) -> nat
    decreases node,
{
    match node {
        RawRlpNode::Extension(ext) => 1 + node_size(*ext.1),
        RawRlpNode::Branch(branch) => 1 + nodes_size(branch.0@),
        _ => 1,
    }
}

/// The number of nodes that the nodes hold anywhere, themselves counted.
spec fn nodes_size(nodes: Seq<RawRlpNode>) -> nat
    decreases nodes,
{
    if nodes.len() == 0 {
        0
    } else {
        nodes_size(nodes.drop_last()) + node_size(nodes[nodes.len() - 1])
    }
}

/// The sizes of two stacks add up.
proof fn lemma_nodes_size(a: Seq<RawRlpNode>, b: Seq<RawRlpNode>)
    ensures
        nodes_size(a + b) == nodes_size(a) + nodes_size(b),
    decreases b.len(),
{
    if b.len() == 0 {
        assert(a + b =~= a);
    } else {
        lemma_nodes_size(a, b.drop_last());
        assert((a + b).drop_last() =~= a + b.drop_last());
    }
}

/// Drops the node. Each branch holds the one that was closed before it, so the nodes are taken
/// apart one after the other: left to itself, dropping them would nest as deep as there are
/// branches.
pub(crate) fn release(node: RawRlpNode) {
    let mut nodes: Vec<RawRlpNode> = Vec::new();
    nodes.push(node);
    while nodes.len() > 0
        decreases nodes_size(nodes@),
    {
        let ghost before = nodes@;
        let ghost top = before[before.len() - 1];
        let popped = nodes.pop();
        assert(nodes@ =~= before.drop_last());
        assert(popped == Some(top));
        assert(nodes_size(before) == nodes_size(before.drop_last()) + node_size(top));
        assert(node_size(top) >= 1);
        match popped {
            Some(RawRlpNode::Branch((shared, _, _, _, _))) => {
                if let Some(own) = unshared(shared) {
                    let mut own = own;
                    proof {
                        assert(node_size(top) == 1 + nodes_size(own@));
                        lemma_nodes_size(before.drop_last(), own@);
                    }
                    nodes.append(&mut own);
                }
            },
            Some(RawRlpNode::Extension((_, child))) => {
                assert(node_size(top) == 1 + node_size(*child));
                assert(before.drop_last().push(*child).drop_last() =~= before.drop_last());
                nodes.push(*child);
            },
            _ => {},
        }
    }
}

} // verus!
