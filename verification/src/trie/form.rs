//! What trie nodes hold.
use crate::trie::rlp::{branch_reference, extension_reference, leaf_reference, word_reference};
use vstd::prelude::*;

verus! {

/// What a node holds.
pub enum NodeForm {
    /// The rest of the key, and the value.
    Leaf(Seq<u8>, Seq<u8>),
    /// A hash.
    Word(Seq<u8>),
    /// A path, and the node at its end.
    Extension(Seq<u8>, Box<NodeForm>),
    /// Nodes of which those from the position `first` on are the children, the mask of the
    /// children, and the mask of those among them that count as hashed.
    Branch { nodes: Seq<NodeForm>, state_mask: u16, hash_mask: u16, first: nat },
    /// Nothing.
    Unset,
}

/// The reference to a node.
pub open spec fn form_rlp(form: NodeForm) -> Seq<u8>
    decreases form, 0nat,
{
    match form {
        NodeForm::Leaf(key, value) => leaf_reference(key, value),
        NodeForm::Word(word) => word_reference(word),
        NodeForm::Extension(key, child) => extension_reference(key, form_rlp(*child)),
        NodeForm::Branch { nodes, state_mask, first, .. } => branch_reference(
            form_rlps_from(nodes, first),
            state_mask,
        ),
        NodeForm::Unset => Seq::empty(),
    }
}

/// The references to the nodes from position `from` on.
pub open spec fn form_rlps_from(forms: Seq<NodeForm>, from: nat) -> Seq<Seq<u8>>
    decreases forms, forms.len() - from,
{
    if from < forms.len() {
        seq![form_rlp(forms[from as int])] + form_rlps_from(forms, from + 1)
    } else {
        Seq::empty()
    }
}

/// The references to the nodes.
pub open spec fn form_rlps(forms: Seq<NodeForm>) -> Seq<Seq<u8>> {
    Seq::new(forms.len(), |i: int| form_rlp(forms[i]))
}

/// `form_rlps_from` lists the references one by one.
pub proof fn lemma_form_rlps_from(forms: Seq<NodeForm>, from: nat)
    requires
        from <= forms.len(),
    ensures
        form_rlps_from(forms, from) == form_rlps(forms.skip(from as int)),
    decreases forms.len() - from,
{
    if from < forms.len() {
        lemma_form_rlps_from(forms, from + 1);
        assert(seq![form_rlp(forms[from as int])] + form_rlps(forms.skip(from as int + 1))
            =~= form_rlps(forms.skip(from as int)));
    } else {
        assert(form_rlps(forms.skip(from as int)) =~= Seq::empty());
    }
}

/// Whether every branch that is encoded with the node has a child.
pub open spec fn is_full(form: NodeForm) -> bool
    decreases form,
{
    match form {
        NodeForm::Extension(_, child) => is_full(*child),
        NodeForm::Branch { nodes, first, .. } => {
            &&& first < nodes.len()
            &&& forall|i: int| first <= i < nodes.len() ==> is_full(#[trigger] nodes[i])
        },
        _ => true,
    }
}

/// Whether every value in the node has at least 32 bytes.
pub open spec fn is_long(form: NodeForm) -> bool
    decreases form,
{
    match form {
        NodeForm::Leaf(_, value) => value.len() >= 32,
        NodeForm::Extension(_, child) => is_long(*child),
        NodeForm::Branch { nodes, first, .. } => forall|i: int|
            first <= i < nodes.len() ==> is_long(#[trigger] nodes[i]),
        _ => true,
    }
}

} // verus!
