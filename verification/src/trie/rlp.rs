//! Encoded trie nodes, as parents refer to them.
use crate::crypto::keccak::{keccak256, keccak256_digest, word_at};
use crate::trie::mask::{bits_below, has_bit, TrieMask};
use crate::trie::nibbles::all_nibbles;
use vstd::prelude::*;

verus! {

/// Root hash of an empty trie.
pub const EMPTY_ROOT_HASH: [u8; 32] = [
    0x56, 0xe8, 0x1f, 0x17, 0x1b, 0xcc, 0x55, 0xa6, 0xff, 0x83, 0x45, 0xe6, 0x92, 0xc0, 0xf8, 0x6e,
    0x5b, 0x48, 0xe0, 0x1b, 0x99, 0x6c, 0xad, 0xc0, 0x01, 0x62, 0x2f, 0xb5, 0xe3, 0x63, 0xb4, 0x21,
];

/// The bytes of a number, the most significant one first and none of them in front zero.
pub open spec fn trimmed(value: nat) -> Seq<u8>
    decreases value,
{
    if value == 0 {
        Seq::empty()
    } else {
        trimmed(value / 256).push((value % 256) as u8)
    }
}

/// What RLP puts in front of `len` bytes: one byte that counts them from `short` on, or one that
/// counts the bytes of their number from `long` on and then that number.
pub open spec fn rlp_header(short: int, long: int, len: nat) -> Seq<u8> {
    if len < 56 {
        seq![(short + len) as u8]
    } else {
        seq![(long + trimmed(len).len()) as u8] + trimmed(len)
    }
}

/// The RLP encoding of a string of bytes. One byte below 0x80 stands for itself.
pub open spec fn rlp_string(bytes: Seq<u8>) -> Seq<u8> {
    if bytes.len() == 1 && bytes[0] < 0x80 {
        bytes
    } else {
        rlp_header(0x80, 0xb7, bytes.len()) + bytes
    }
}

/// The RLP encoding of a list whose items are encoded one behind the other in `payload`.
pub open spec fn rlp_list(payload: Seq<u8>) -> Seq<u8> {
    rlp_header(0xc0, 0xf7, payload.len()) + payload
}

/// An even number of nibbles, two in a byte.
pub open spec fn packed(nibbles: Seq<u8>) -> Seq<u8> {
    Seq::new(nibbles.len() / 2, |i: int| (16 * nibbles[2 * i] + nibbles[2 * i + 1]) as u8)
}

/// A path as bytes: the first one says whether it leads to a leaf and whether the number of nibbles
/// is odd, and holds the first nibble if it is.
pub open spec fn hex_prefix(path: Seq<u8>, leaf: bool) -> Seq<u8> {
    let flag: int = if leaf {
        0x20
    } else {
        0
    };
    if path.len() % 2 == 1 {
        seq![(flag + 0x10 + path[0]) as u8] + packed(path.skip(1))
    } else {
        seq![flag as u8] + packed(path)
    }
}

/// The encoding of a leaf node with the given remaining path and value: a list of both.
#[verifier::opaque]
pub open spec fn leaf_encoding(key: Seq<u8>, value: Seq<u8>) -> Seq<u8> {
    rlp_list(rlp_string(hex_prefix(key, true)) + rlp_string(value))
}

/// The encoding of an extension node: a list of its path and the reference to its child.
#[verifier::opaque]
pub open spec fn extension_encoding(key: Seq<u8>, child: Seq<u8>) -> Seq<u8> {
    rlp_list(rlp_string(hex_prefix(key, false)) + child)
}

/// What a branch node holds for the nibbles below `n`: the references to the children, in the order
/// of the bits that are set in `state_mask`, and empty strings for the other nibbles.
pub open spec fn branch_slots(children: Seq<Seq<u8>>, state_mask: u16, n: nat) -> Seq<u8>
    decreases n,
{
    if n == 0 {
        Seq::empty()
    } else {
        let m = (n - 1) as u8;
        branch_slots(children, state_mask, m as nat) + if has_bit(state_mask, m) {
            children[bits_below(state_mask, m as nat) as int]
        } else {
            seq![0x80u8]
        }
    }
}

/// The encoding of a branch node: a list of what it holds for each nibble, and an empty value.
#[verifier::opaque]
pub open spec fn branch_encoding(children: Seq<Seq<u8>>, state_mask: u16) -> Seq<u8> {
    rlp_list(branch_slots(children, state_mask, 16).push(0x80))
}

/// A leaf with a value of 32 bytes has an encoding that is long enough to be hashed.
pub proof fn lemma_leaf_long(key: Seq<u8>, value: Seq<u8>)
    requires
        value.len() >= 32,
    ensures
        leaf_encoding(key, value).len() >= 32,
{
    reveal(leaf_encoding);
}

/// An extension to a child of 32 bytes has an encoding that is long enough to be hashed.
pub proof fn lemma_extension_long(key: Seq<u8>, child: Seq<u8>)
    requires
        child.len() >= 32,
    ensures
        extension_encoding(key, child).len() >= 32,
{
    reveal(extension_encoding);
}

/// A branch with children of 32 bytes has an encoding that is long enough to be hashed.
pub proof fn lemma_branch_long(children: Seq<Seq<u8>>, state_mask: u16)
    requires
        children.len() == bits_below(state_mask, 16),
        children.len() > 0,
        forall|i: int| 0 <= i < children.len() ==> (#[trigger] children[i]).len() >= 32,
    ensures
        branch_encoding(children, state_mask).len() >= 32,
{
    reveal(branch_encoding);
    lemma_slots_long(children, state_mask, 16);
}

/// What a branch holds is long where it has a child among the nibbles.
proof fn lemma_slots_long(children: Seq<Seq<u8>>, state_mask: u16, n: nat)
    requires
        n <= 16,
        children.len() == bits_below(state_mask, 16),
        forall|i: int| 0 <= i < children.len() ==> (#[trigger] children[i]).len() >= 32,
    ensures
        bits_below(state_mask, n) > 0 ==> branch_slots(children, state_mask, n).len() >= 32,
    decreases n,
{
    if n > 0 {
        lemma_slots_long(children, state_mask, (n - 1) as nat);
        lemma_bits_below_monotone(state_mask, n, 16);
    }
}

/// The RLP encoding of a 32 byte word.
pub open spec fn word_reference(word: Seq<u8>) -> Seq<u8> {
    seq![0xa0u8] + word
}

/// How a parent refers to a node with the given encoding: a short encoding stands for itself, any
/// other by its hash.
pub open spec fn reference(encoding: Seq<u8>) -> Seq<u8> {
    if encoding.len() < 32 {
        encoding
    } else {
        word_reference(keccak256_digest(encoding))
    }
}

/// The reference to a leaf.
pub open spec fn leaf_reference(key: Seq<u8>, value: Seq<u8>) -> Seq<u8> {
    reference(leaf_encoding(key, value))
}

/// The reference to an extension.
pub open spec fn extension_reference(key: Seq<u8>, child: Seq<u8>) -> Seq<u8> {
    reference(extension_encoding(key, child))
}

/// The reference to a branch.
pub open spec fn branch_reference(children: Seq<Seq<u8>>, state_mask: u16) -> Seq<u8> {
    reference(branch_encoding(children, state_mask))
}

/// Whether a reference is that of a hash.
pub open spec fn is_hash_reference(r: Seq<u8>) -> bool {
    r.len() == 33
}

/// The hash of the node that `r` refers to.
pub open spec fn reference_hash(r: Seq<u8>) -> Seq<u8> {
    if is_hash_reference(r) {
        r.subrange(1, 33)
    } else {
        keccak256_digest(r)
    }
}

/// The contents of each vector.
pub open spec fn byte_views(v: Seq<Vec<u8>>) -> Seq<Seq<u8>> {
    Seq::new(v.len(), |i: int| v[i]@)
}

/// The contents of each word.
pub open spec fn word_views(v: Seq<[u8; 32]>) -> Seq<Seq<u8>> {
    Seq::new(v.len(), |i: int| v[i]@)
}

/// Calls `alloy_trie::nodes::LeafNodeRef::rlp` on an empty buffer: the node is encoded, and the
/// result is the encoding where it is shorter than 32 bytes, and the encoded hash of it otherwise,
/// which has 33 bytes.
#[verifier::external_body]
pub(crate) fn leaf_rlp(key: &[u8], value: &[u8]) -> (r: Vec<u8>)
    requires
        all_nibbles(key@),
    ensures
        r@ == reference(leaf_encoding(key@, value@)),
        leaf_encoding(key@, value@).len() >= 32 ==> r@.len() == 33,
{
    let path = alloy_trie::Nibbles::from_nibbles_unchecked(key);
    alloy_trie::nodes::LeafNodeRef::new(&path, value).rlp(&mut Vec::new()).to_vec()
}

/// Calls `alloy_trie::nodes::ExtensionNodeRef::rlp` on an empty buffer: the node is encoded, and
/// the result is the encoding where it is shorter than 32 bytes, and the encoded hash of it
/// otherwise, which has 33 bytes. The child is put in as it is.
#[verifier::external_body]
pub(crate) fn extension_rlp(key: &[u8], child: &[u8]) -> (r: Vec<u8>)
    requires
        all_nibbles(key@),
    ensures
        r@ == reference(extension_encoding(key@, child@)),
        extension_encoding(key@, child@).len() >= 32 ==> r@.len() == 33,
{
    let path = alloy_trie::Nibbles::from_nibbles_unchecked(key);
    alloy_trie::nodes::ExtensionNodeRef::new(&path, child).rlp(&mut Vec::new()).to_vec()
}

/// Calls `alloy_trie::nodes::BranchNodeRef::rlp` on an empty buffer, with one child for each bit
/// of the mask: the node is encoded, and the result is the encoding where it is shorter than 32
/// bytes, and the encoded hash of it otherwise, which has 33 bytes. The children are put in as they
/// are.
#[verifier::external_body]
pub(crate) fn branch_rlp(children: &Vec<Vec<u8>>, state_mask: u16) -> (r: Vec<u8>)
    requires
        children@.len() == bits_below(state_mask, 16),
        forall|i: int| 0 <= i < children@.len() ==> (#[trigger] children@[i])@.len() <= 33,
    ensures
        r@ == reference(branch_encoding(byte_views(children@), state_mask)),
        branch_encoding(byte_views(children@), state_mask).len() >= 32 ==> r@.len() == 33,
{
    let stack: Vec<alloy_trie::nodes::RlpNode> =
        children.iter().map(|c| alloy_trie::nodes::RlpNode::from_raw(c).unwrap()).collect();
    let mask = alloy_trie::TrieMask::new(state_mask);
    alloy_trie::nodes::BranchNodeRef::new(&stack, mask).rlp(&mut Vec::new()).to_vec()
}

/// The encoding of a word.
pub fn word_rlp(word: &[u8; 32]) -> (r: Vec<u8>)
    ensures
        r@ == word_reference(word@),
        r@.len() == 33,
{
    let mut out: Vec<u8> = Vec::new();
    out.push(0xa0);
    let mut i: usize = 0;
    while i < 32
        invariant
            i <= 32,
            out@ == seq![0xa0u8] + word@.subrange(0, i as int),
        decreases 32 - i,
    {
        out.push(word[i]);
        assert(out@ =~= seq![0xa0u8] + word@.subrange(0, i + 1));
        i = i + 1;
    }
    assert(word@.subrange(0, 32) =~= word@);
    out
}

/// The hash that a reference holds, where it holds one.
pub fn as_hash(rlp: &Vec<u8>) -> (r: Option<[u8; 32]>)
    ensures
        is_hash_reference(rlp@) <==> r is Some,
        r matches Some(h) ==> h@ == rlp@.subrange(1, 33),
{
    if rlp.len() == 33 {
        Some(word_at(rlp.as_slice(), 1))
    } else {
        None
    }
}

/// The hash of the node that a reference stands for.
pub fn hash_of(rlp: &Vec<u8>) -> (r: [u8; 32])
    ensures
        r@ == reference_hash(rlp@),
{
    match as_hash(rlp) {
        Some(hash) => hash,
        None => keccak256(rlp.as_slice()),
    }
}

/// The children, among those of the nibbles below `n`, whose bit is set in `hash_mask`;
/// `children` holds one for each bit of `state_mask`.
pub open spec fn masked_children(
    children: Seq<Seq<u8>>,
    state_mask: u16,
    hash_mask: u16,
    n: nat,
) -> Seq<Seq<u8>>
    decreases n,
{
    if n == 0 {
        Seq::empty()
    } else {
        let m = (n - 1) as u8;
        let rest = masked_children(children, state_mask, hash_mask, (n - 1) as nat);
        if has_bit(state_mask, m) && has_bit(hash_mask, m) {
            rest.push(children[bits_below(state_mask, m as nat) as int])
        } else {
            rest
        }
    }
}

/// Whether each of the references is that of a hash.
pub open spec fn all_hashes(references: Seq<Seq<u8>>) -> bool {
    forall|i: int| 0 <= i < references.len() ==> is_hash_reference(#[trigger] references[i])
}

/// The hashes that the references hold.
pub open spec fn hashes_of(references: Seq<Seq<u8>>) -> Seq<Seq<u8>> {
    Seq::new(references.len(), |i: int| references[i].subrange(1, 33))
}

/// The number of bits below a bound grows with the bound.
proof fn lemma_bits_below_monotone(mask: u16, a: nat, b: nat)
    requires
        a <= b,
    ensures
        bits_below(mask, a) <= bits_below(mask, b),
    decreases b,
{
    if a < b {
        lemma_bits_below_monotone(mask, a, (b - 1) as nat);
    }
}

/// Calls `alloy_trie::nodes::BranchNodeRef::child_hashes`, with one child for each bit of the state
/// mask, where all children of the hash mask are referred to by their hashes: those hashes, in the
/// order of the nibbles.
#[verifier::external_body]
fn masked_hashes(children: &Vec<Vec<u8>>, state_mask: u16, hash_mask: u16) -> (r: Vec<[u8; 32]>)
    requires
        children@.len() == bits_below(state_mask, 16),
        forall|i: int| 0 <= i < children@.len() ==> (#[trigger] children@[i])@.len() <= 33,
        all_hashes(masked_children(byte_views(children@), state_mask, hash_mask, 16)),
    ensures
        word_views(r@) == hashes_of(
            masked_children(byte_views(children@), state_mask, hash_mask, 16),
        ),
{
    let stack: Vec<alloy_trie::nodes::RlpNode> =
        children.iter().map(|c| alloy_trie::nodes::RlpNode::from_raw(c).unwrap()).collect();
    let mask = alloy_trie::TrieMask::new(state_mask);
    let node = alloy_trie::nodes::BranchNodeRef::new(&stack, mask);
    node.child_hashes(alloy_trie::TrieMask::new(hash_mask)).map(|hash| hash.0).collect()
}

/// The hashes of the children whose bit is set in `hash_mask`, or `None` where one of those
/// children is not referred to by its hash.
pub fn child_hashes(children: &Vec<Vec<u8>>, state_mask: TrieMask, hash_mask: TrieMask) -> (r:
    Option<Vec<[u8; 32]>>)
    requires
        children@.len() == bits_below(state_mask.bits, 16),
        forall|i: int| 0 <= i < children@.len() ==> (#[trigger] children@[i])@.len() <= 33,
    ensures
        ({
            let masked = masked_children(
                byte_views(children@),
                state_mask.bits,
                hash_mask.bits,
                16,
            );
            &&& r is Some <==> all_hashes(masked)
            &&& r matches Some(hashes) ==> word_views(hashes@) == hashes_of(masked)
        }),
{
    let ghost views = byte_views(children@);
    let total: usize = children.len();
    let mut next: usize = 0;
    let mut n: u8 = 0;
    while n < 16
        invariant
            n <= 16,
            views == byte_views(children@),
            total == children@.len(),
            children@.len() == bits_below(state_mask.bits, 16),
            next == bits_below(state_mask.bits, n as nat),
            all_hashes(masked_children(views, state_mask.bits, hash_mask.bits, n as nat)),
        decreases 16 - n,
    {
        let ghost before = masked_children(views, state_mask.bits, hash_mask.bits, n as nat);
        let ghost after = masked_children(views, state_mask.bits, hash_mask.bits, (n + 1) as nat);
        if state_mask.is_bit_set(n) {
            proof {
                lemma_bits_below_monotone(state_mask.bits, (n + 1) as nat, 16);
            }
            if hash_mask.is_bit_set(n) {
                proof {
                    assert(after == before.push(views[next as int]));
                    assert(after.last() == children@[next as int]@);
                }
                if as_hash(&children[next]).is_none() {
                    proof {
                        let all = masked_children(views, state_mask.bits, hash_mask.bits, 16);
                        lemma_masked_prefix(
                            views,
                            state_mask.bits,
                            hash_mask.bits,
                            (n + 1) as nat,
                            16,
                        );
                        assert(all[before.len() as int] == after.last());
                    }
                    return None;
                }
            }
            next = next + 1;
        }
        n = n + 1;
    }
    Some(masked_hashes(children, state_mask.bits, hash_mask.bits))
}

/// The hashed children among fewer nibbles come first.
pub proof fn lemma_masked_prefix(
    children: Seq<Seq<u8>>,
    state_mask: u16,
    hash_mask: u16,
    a: nat,
    b: nat,
)
    requires
        a <= b,
    ensures
        masked_children(children, state_mask, hash_mask, a).len() <= masked_children(
            children,
            state_mask,
            hash_mask,
            b,
        ).len(),
        forall|i: int|
            0 <= i < masked_children(children, state_mask, hash_mask, a).len()
                ==> #[trigger] masked_children(children, state_mask, hash_mask, b)[i]
                == masked_children(children, state_mask, hash_mask, a)[i],
    decreases b,
{
    if a < b {
        lemma_masked_prefix(children, state_mask, hash_mask, a, (b - 1) as nat);
    }
}

/// Where all children are referred to by their hashes, the chosen ones are.
pub proof fn lemma_masked_hashes(
    children: Seq<Seq<u8>>,
    state_mask: u16,
    hash_mask: u16,
    n: nat,
)
    requires
        children.len() == bits_below(state_mask, 16),
        all_hashes(children),
        n <= 16,
    ensures
        all_hashes(masked_children(children, state_mask, hash_mask, n)),
    decreases n,
{
    if n > 0 {
        lemma_masked_hashes(children, state_mask, hash_mask, (n - 1) as nat);
        lemma_bits_below_monotone(state_mask, n, 16);
    }
}

} // verus!
