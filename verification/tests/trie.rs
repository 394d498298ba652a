use gravity_reth::trie::builder::ParallelHashBuilder;
use gravity_reth::trie::mask::TrieMask;
use gravity_reth::trie::nibbles::Nibbles;
use gravity_reth::trie::node::RawRlpNode;
use gravity_reth::trie::rlp::EMPTY_ROOT_HASH;
use gravity_reth::trie::updates::{BranchNodeCompact, PathMap};
use gravity_reth::trie::value::HashBuilderValue;

/// A sequence of numbers that is the same in every run.
struct Numbers(u64);

impl Numbers {
    fn next(&mut self) -> u64 {
        self.0 = self.0.wrapping_mul(6364136223846793005).wrapping_add(1442695040888963407);
        self.0 >> 33
    }
}

fn nibbles(path: &[u8]) -> Nibbles {
    Nibbles::from_nibbles(path.to_vec())
}

fn other_nibbles(path: &[u8]) -> alloy_trie::Nibbles {
    alloy_trie::Nibbles::from_nibbles_unchecked(path)
}

/// Sorted keys of the given length, none twice.
fn sorted_keys(numbers: &mut Numbers, count: usize, len: usize, spread: u64) -> Vec<Vec<u8>> {
    let mut keys: Vec<Vec<u8>> = Vec::new();
    for _ in 0..count {
        let mut key = Vec::new();
        for position in 0..len {
            let bound = if position < 6 { spread } else { 16 };
            key.push((numbers.next() % bound) as u8);
        }
        keys.push(key);
    }
    keys.sort();
    keys.dedup();
    keys
}

fn compare_updates(
    ours: &PathMap<BranchNodeCompact>,
    theirs: &alloy_trie::HashMap<alloy_trie::Nibbles, alloy_trie::BranchNodeCompact>,
) {
    assert_eq!(ours.len(), theirs.len());
    for (path, node) in ours.entries() {
        let other = theirs.get(&other_nibbles(path.as_slice())).unwrap();
        assert_eq!(node.state_mask.bits, other.state_mask.get());
        assert_eq!(node.tree_mask.bits, other.tree_mask.get());
        assert_eq!(node.hash_mask.bits, other.hash_mask.get());
        let hashes: Vec<[u8; 32]> = other.hashes.iter().map(|hash| hash.0).collect();
        assert_eq!(node.hashes, hashes);
        assert_eq!(node.root_hash, other.root_hash.map(|hash| hash.0));
    }
}

#[test]
fn empty_builder_has_the_root_of_the_empty_trie() {
    let mut builder = ParallelHashBuilder::default();
    assert_eq!(builder.root(), EMPTY_ROOT_HASH);
    assert_eq!(EMPTY_ROOT_HASH, alloy_trie::EMPTY_ROOT_HASH.0);
    assert_eq!(builder.updates_len(), 0);
}

#[test]
fn root_of_one_leaf_is_the_hash_of_its_encoding() {
    let mut builder = ParallelHashBuilder::default();
    builder.add_leaf(Nibbles::unpack(&[0x64, 0x6f]), b"verb");
    let root = builder.root();
    // A list of the path with its terminator and the value.
    let encoding = [0xc9, 0x83, 0x20, 0x64, 0x6f, 0x84, 0x76, 0x65, 0x72, 0x62];
    assert_eq!(root, alloy_primitives::keccak256(encoding).0);
}

#[test]
fn known_root_of_four_words() {
    // The example of the Ethereum wiki.
    let mut builder = ParallelHashBuilder::default();
    builder.add_leaf(Nibbles::unpack(b"doe"), b"reindeer");
    builder.add_leaf(Nibbles::unpack(b"dog"), b"puppy");
    builder.add_leaf(Nibbles::unpack(b"horse"), b"stallion");
    let mut other = alloy_trie::HashBuilder::default();
    other.add_leaf(alloy_trie::Nibbles::unpack(b"doe"), b"reindeer");
    other.add_leaf(alloy_trie::Nibbles::unpack(b"dog"), b"puppy");
    other.add_leaf(alloy_trie::Nibbles::unpack(b"horse"), b"stallion");
    assert_eq!(builder.root(), other.root().0);
}

#[test]
fn roots_and_updates_of_many_tries() {
    let mut numbers = Numbers(1);
    for round in 0..60u64 {
        let count = (numbers.next() % 40) as usize + 1;
        let spread = numbers.next() % 15 + 2;
        let keys = sorted_keys(&mut numbers, count, 64, spread);
        let mut ours = ParallelHashBuilder::default().with_updates(true);
        let mut theirs = alloy_trie::HashBuilder::default().with_updates(true);
        for key in &keys {
            let mut value = vec![0u8; (numbers.next() % 50) as usize + 1];
            value[0] = round as u8;
            ours.add_leaf(nibbles(key), &value);
            theirs.add_leaf(other_nibbles(key), &value);
        }
        assert_eq!(ours.root(), theirs.root().0);
        assert_eq!(ours.updates_len(), theirs.updates_len());
        let (_, our_updates) = match ours.try_split() {
            Ok(parts) => parts,
            Err(_) => panic!("all branches have been encoded"),
        };
        let (_, their_updates) = theirs.split();
        compare_updates(&our_updates, &their_updates);
    }
}

#[test]
fn roots_with_hashed_subtrees() {
    let mut numbers = Numbers(7);
    for _ in 0..60 {
        let count = (numbers.next() % 30) as usize + 2;
        let keys = sorted_keys(&mut numbers, count, 12, 4);
        let mut ours = ParallelHashBuilder::default().with_updates(true);
        let mut theirs = alloy_trie::HashBuilder::default().with_updates(true);
        for key in &keys {
            let word = alloy_primitives::keccak256(key);
            if numbers.next() % 2 == 0 {
                let stored = numbers.next() % 2 == 0;
                ours.add_branch(nibbles(key), word.0, stored);
                theirs.add_branch(other_nibbles(key), word, stored);
            } else {
                ours.add_leaf_unchecked(nibbles(key), word.as_slice());
                theirs.add_leaf_unchecked(other_nibbles(key), word.as_slice());
            }
        }
        assert_eq!(ours.root(), theirs.root().0);
        let (_, our_updates) = match ours.try_split() {
            Ok(parts) => parts,
            Err(_) => panic!("all branches have been encoded"),
        };
        let (_, their_updates) = theirs.split();
        compare_updates(&our_updates, &their_updates);
    }
}

#[test]
fn retaining_updates_leaves_the_root() {
    let keys = sorted_keys(&mut Numbers(3), 30, 64, 3);
    let mut plain = ParallelHashBuilder::default();
    let mut retaining = ParallelHashBuilder::default();
    retaining.set_updates(true);
    for key in &keys {
        plain.add_leaf(nibbles(key), &[1u8; 40]);
        retaining.add_leaf(nibbles(key), &[1u8; 40]);
    }
    assert_eq!(plain.updates_len(), 0);
    assert!(retaining.updates_len() > 0);
    assert_eq!(plain.root(), retaining.root());
}

#[test]
fn hash_stands_for_the_subtree() {
    let below: Vec<Vec<u8>> = vec![vec![2, 5, 1, 0], vec![2, 5, 1, 9], vec![2, 5, 7, 3]];
    let before = vec![1, 1, 1, 1];
    let after = vec![2, 6, 0, 0];
    let value = [9u8; 40];
    let mut whole = ParallelHashBuilder::default().with_updates(true);
    whole.add_leaf(nibbles(&before), &value);
    for key in &below {
        whole.add_leaf(nibbles(key), &value);
    }
    whole.add_leaf(nibbles(&after), &value);
    let root = whole.root();
    let (_, updates) = match whole.try_split() {
        Ok(parts) => parts,
        Err(_) => panic!("all branches have been encoded"),
    };
    // The branch at 2 has the one at 25 as a hashed child.
    let parent = updates.get(&nibbles(&[2])).unwrap();
    assert_eq!(parent.state_mask.bits, 1 << 5 | 1 << 6);
    assert_eq!(parent.hash_mask.bits, 1 << 5);
    assert_eq!(parent.hashes.len(), 1);
    let mut small = ParallelHashBuilder::default();
    small.add_leaf(nibbles(&before), &value);
    small.add_branch(nibbles(&[2, 5]), parent.hashes[0], true);
    small.add_leaf(nibbles(&after), &value);
    assert_eq!(small.root(), root);
}

#[test]
fn branch_nodes_are_consistent() {
    let keys = sorted_keys(&mut Numbers(11), 60, 64, 4);
    let mut builder = ParallelHashBuilder::default().with_updates(true);
    for key in &keys {
        builder.add_leaf(nibbles(key), &[7u8; 33]);
    }
    let root = builder.root();
    let (_, updates) = match builder.try_split() {
        Ok(parts) => parts,
        Err(_) => panic!("all branches have been encoded"),
    };
    assert!(updates.len() > 3);
    for (path, node) in updates.entries() {
        assert!(node.tree_mask.is_subset_of(node.state_mask));
        assert!(node.hash_mask.is_subset_of(node.state_mask));
        assert!(!node.tree_mask.is_empty() || !node.hash_mask.is_empty());
        assert_eq!(node.hashes.len(), node.hash_mask.count_ones());
        assert_eq!(node.root_hash, if path.is_empty() { Some(root) } else { None });
    }
}

#[test]
fn builder_is_empty_after_the_root() {
    let mut builder = ParallelHashBuilder::default().with_updates(true);
    builder.add_leaf(nibbles(&[1, 2, 3]), &[1u8; 40]);
    let first = builder.root();
    assert_eq!(builder.root(), EMPTY_ROOT_HASH);
    // The same key can come again, and the trie is a new one.
    builder.add_leaf(nibbles(&[1, 2, 3]), &[1u8; 40]);
    assert_eq!(builder.root(), first);
}

#[test]
fn updates_of_two_tries_are_kept() {
    let value = [5u8; 40];
    let mut builder = ParallelHashBuilder::default().with_updates(true);
    for key in [[1, 1, 1], [1, 1, 2], [1, 2, 1]] {
        builder.add_leaf(nibbles(&key), &value);
    }
    builder.root();
    assert_eq!(builder.updates_len(), 1);
    for key in [[3, 1, 1], [3, 1, 2], [3, 2, 1]] {
        builder.add_leaf(nibbles(&key), &value);
    }
    builder.root();
    assert_eq!(builder.updates_len(), 2);
    let (rest, updates) = match builder.try_split() {
        Ok(parts) => parts,
        Err(_) => panic!("all branches have been encoded"),
    };
    assert_eq!(rest.updates_len(), 0);
    assert!(updates.get(&nibbles(&[1])).is_some());
    assert!(updates.get(&nibbles(&[3])).is_some());
    assert!(updates.get(&nibbles(&[1, 1])).is_none());
}

#[test]
fn hash_with_an_empty_key_is_the_root() {
    let mut builder = ParallelHashBuilder::default();
    builder.add_branch(nibbles(&[]), [3u8; 32], false);
    builder.add_branch(nibbles(&[]), [4u8; 32], false);
    assert_eq!(builder.root(), [4u8; 32]);
    assert_eq!(builder.root(), [3u8; 32]);
    assert_eq!(builder.root(), EMPTY_ROOT_HASH);
}

#[test]
fn hash_below_items_stays() {
    let mut builder = ParallelHashBuilder::default();
    builder.add_branch(nibbles(&[]), [3u8; 32], false);
    builder.add_leaf(nibbles(&[1]), &[1u8; 40]);
    builder.add_leaf(nibbles(&[2]), &[1u8; 40]);
    let mut other = ParallelHashBuilder::default();
    other.add_leaf(nibbles(&[1]), &[1u8; 40]);
    other.add_leaf(nibbles(&[2]), &[1u8; 40]);
    assert_eq!(builder.root(), other.root());
    assert_eq!(builder.root(), [3u8; 32]);
}

#[test]
fn pending_branches_cannot_be_split_off() {
    let value = [5u8; 40];
    let mut builder = ParallelHashBuilder::default().with_updates(true);
    for key in [[1, 1, 1], [1, 1, 2], [1, 2, 1], [2, 0, 0]] {
        builder.add_leaf(nibbles(&key), &value);
    }
    assert_eq!(builder.updates_len(), 1);
    let mut builder = match builder.try_split() {
        Ok(_) => panic!("a branch has not been encoded"),
        Err(builder) => builder,
    };
    builder.root();
    assert!(builder.try_split().is_ok());
}

#[test]
fn short_hashed_children_cannot_be_split_off() {
    // The branch at 11 is shorter than a hash, and the one at 1 refers to it directly.
    let mut builder = ParallelHashBuilder::default().with_updates(true);
    for key in [[1, 1, 1], [1, 1, 2], [1, 2, 1]] {
        builder.add_leaf(nibbles(&key), &[1]);
    }
    builder.root();
    assert_eq!(builder.updates_len(), 1);
    assert!(builder.try_split().is_err());
}

#[test]
fn split_without_updates_gives_none() {
    let mut builder = ParallelHashBuilder::default();
    builder.add_leaf(nibbles(&[1, 1, 1]), &[5u8; 40]);
    let (mut builder, updates) = builder.split();
    assert_eq!(updates.len(), 0);
    assert!(builder.root() != EMPTY_ROOT_HASH);
}

#[test]
fn updates_are_retained_from_then_on() {
    let value = [5u8; 40];
    let mut builder = ParallelHashBuilder::default();
    for key in [[1, 1, 1], [1, 1, 2], [1, 2, 1], [2, 0, 0]] {
        builder.add_leaf(nibbles(&key), &value);
    }
    builder.set_updates(true);
    assert_eq!(builder.updates_len(), 0);
    builder.set_updates(false);
    for key in [[3, 1, 1], [3, 1, 2], [3, 2, 1]] {
        builder.add_leaf(nibbles(&key), &value);
    }
    builder.root();
    let (_, updates) = builder.split();
    assert!(updates.get(&nibbles(&[1])).is_none());
    assert!(updates.get(&nibbles(&[3])).is_some());
    assert!(updates.get(&nibbles(&[])).is_some());
    assert_eq!(updates.len(), 2);
}

fn bits(masks: &[TrieMask]) -> Vec<u16> {
    masks.iter().map(|mask| mask.bits).collect()
}

#[test]
fn closed_branch_is_on_the_stack() {
    let mut builder = ParallelHashBuilder::default();
    builder.add_leaf(nibbles(&[1, 1, 1, 1]), &[1]);
    assert!(builder.stack.is_empty() && builder.state_masks.is_empty());
    builder.add_leaf(nibbles(&[1, 1, 1, 2]), &[2]);
    // The first leaf leaves the second key at position 3.
    assert_eq!(builder.stack.len(), 1);
    assert_eq!(bits(&builder.state_masks), vec![0, 0, 0, 0b10]);
    assert_eq!(bits(&builder.tree_masks), vec![0; 4]);
    builder.add_leaf(nibbles(&[2, 0, 0, 0]), &[3]);
    assert_eq!(bits(&builder.state_masks), vec![0b10]);
    assert_eq!(bits(&builder.tree_masks), vec![0]);
    assert_eq!(bits(&builder.hash_masks), vec![0]);
    assert_eq!(builder.key.as_slice(), &[2, 0, 0, 0]);
    assert_eq!(builder.stack.len(), 1);
    let (path, below) = match &builder.stack[0] {
        RawRlpNode::Extension((path, below)) => (path, below),
        node => panic!("unexpected {:?}", node),
    };
    assert_eq!(path.as_slice(), &[1, 1]);
    match &**below {
        RawRlpNode::Branch((children, state_mask, hash_mask, first, slot)) => {
            assert_eq!((state_mask.bits, hash_mask.bits, *first, *slot), (0b110, 0, 0, None));
            let leaves: Vec<(&[u8], &[u8])> = children
                .iter()
                .map(|child| match child {
                    RawRlpNode::Leaf(leaf) => (leaf.key.as_slice(), &leaf.value[..]),
                    node => panic!("unexpected {:?}", node),
                })
                .collect();
            assert_eq!(leaves, vec![(&[][..], &[1u8][..]), (&[][..], &[2u8][..])]);
        }
        node => panic!("unexpected {:?}", node),
    }
}

#[test]
fn branch_holds_the_whole_stack() {
    let mut builder = ParallelHashBuilder::default();
    builder.add_branch(nibbles(&[]), [8; 32], false);
    builder.add_leaf(nibbles(&[1, 0]), &[1]);
    builder.add_leaf(nibbles(&[2, 3]), &[2]);
    builder.add_leaf(nibbles(&[2, 5]), &[3]);
    builder.add_leaf(nibbles(&[4, 0]), &[4]);
    // The word and the first leaf are below the two children.
    assert_eq!(builder.stack.len(), 3);
    match &builder.stack[2] {
        RawRlpNode::Branch((nodes, state_mask, hash_mask, first, slot)) => {
            assert_eq!((state_mask.bits, hash_mask.bits), (0b101000, 0));
            assert_eq!((*first, *slot), (2, None));
            assert_eq!(nodes.len(), 4);
            assert!(matches!(nodes[0], RawRlpNode::Word(word) if word == [8; 32]));
            let leaves: Vec<(&[u8], &[u8])> = nodes[1..]
                .iter()
                .map(|node| match node {
                    RawRlpNode::Leaf(leaf) => (leaf.key.as_slice(), &leaf.value[..]),
                    node => panic!("unexpected {:?}", node),
                })
                .collect();
            let expected: Vec<(&[u8], &[u8])> = vec![(&[0], &[1]), (&[], &[2]), (&[], &[3])];
            assert_eq!(leaves, expected);
        }
        node => panic!("unexpected {:?}", node),
    }
    let mut other = alloy_trie::HashBuilder::default();
    for (key, value) in [([1, 0], [1]), ([2, 3], [2]), ([2, 5], [3]), ([4, 0], [4])] {
        other.add_leaf(other_nibbles(&key), &value);
    }
    assert_eq!(builder.root(), other.root().0);
}

#[test]
fn copies_of_nodes_hold_the_same() {
    let mut builder = ParallelHashBuilder::default().with_updates(true);
    for key in [[1, 1, 1], [1, 1, 2], [1, 2, 1], [2, 0, 0]] {
        builder.add_leaf(nibbles(&key), &[5u8; 40]);
    }
    builder.add_branch(nibbles(&[3, 0, 0]), [7; 32], true);
    builder.add_leaf(nibbles(&[4, 0, 0]), &[1]);
    assert!(builder.stack.len() > 2);
    for node in &builder.stack {
        assert_eq!(format!("{:?}", node.clone()), format!("{:?}", node));
    }
}

#[test]
fn branches_have_slots_only_where_updates_are_retained() {
    let slot_of = |builder: &ParallelHashBuilder| match &builder.stack[0] {
        RawRlpNode::Branch((_, _, _, _, slot)) => *slot,
        node => panic!("unexpected {:?}", node),
    };
    for retain in [false, true] {
        let mut builder = ParallelHashBuilder::default().with_updates(retain);
        builder.add_leaf(nibbles(&[1, 1]), &[1]);
        builder.add_leaf(nibbles(&[1, 2]), &[2]);
        builder.add_leaf(nibbles(&[2, 0]), &[3]);
        assert_eq!(slot_of(&builder), if retain { Some(0) } else { None });
        assert_eq!(builder.inbox.len(), if retain { 1 } else { 0 });
    }
}

#[test]
fn root_of_a_large_trie() {
    let keys = sorted_keys(&mut Numbers(17), 20000, 10, 16);
    let mut ours = ParallelHashBuilder::default().with_updates(true);
    let mut theirs = alloy_trie::HashBuilder::default().with_updates(true);
    for key in &keys {
        ours.add_leaf(nibbles(key), &[7u8; 40]);
        theirs.add_leaf(other_nibbles(key), &[7u8; 40]);
    }
    assert_eq!(ours.root(), theirs.root().0);
    assert_eq!(ours.updates_len(), theirs.updates_len());
}

#[test]
fn hash_behind_an_extension_is_on_the_stack() {
    let mut builder = ParallelHashBuilder::default();
    builder.add_branch(nibbles(&[1, 2]), [7; 32], true);
    assert!(builder.stored_in_database);
    assert!(matches!(builder.value, HashBuilderValue::Hash(hash) if hash == [7; 32]));
    builder.add_leaf(nibbles(&[2]), &[3]);
    assert_eq!(bits(&builder.state_masks), vec![0b10]);
    assert_eq!(bits(&builder.tree_masks), vec![0b10]);
    assert_eq!(bits(&builder.hash_masks), vec![0]);
    // What was said of the hash stays.
    assert!(builder.stored_in_database);
    assert!(matches!(&builder.value, HashBuilderValue::Bytes(bytes) if bytes == &vec![3]));
    match &builder.stack[..] {
        [RawRlpNode::Extension((path, below))] => {
            assert_eq!(path.as_slice(), &[2]);
            assert!(matches!(**below, RawRlpNode::Word(word) if word == [7; 32]));
        }
        nodes => panic!("unexpected {:?}", nodes),
    }
}

#[test]
fn hash_with_an_empty_key_sets_value_and_flag() {
    let mut builder = ParallelHashBuilder::default();
    builder.add_branch(nibbles(&[]), [3u8; 32], true);
    assert!(builder.stored_in_database);
    assert!(matches!(builder.value, HashBuilderValue::Hash(hash) if hash == [3; 32]));
    assert!(matches!(&builder.stack[..], [RawRlpNode::Word(word)] if *word == [3; 32]));
    builder.add_branch(nibbles(&[4]), [5u8; 32], false);
    assert!(!builder.stored_in_database);
    builder.root();
    assert!(matches!(&builder.value, HashBuilderValue::Bytes(bytes) if bytes.is_empty()));
    assert_eq!(builder.stack.len(), 1);
    assert!(builder.state_masks.is_empty() && builder.tree_masks.is_empty());
    assert!(builder.hash_masks.is_empty() && builder.key.is_empty());
}

#[test]
fn root_branch_is_retained_with_its_hash() {
    let mut builder = ParallelHashBuilder::default().with_updates(true);
    for key in [[1, 1, 1], [1, 1, 2], [2, 2, 1], [2, 3, 1]] {
        builder.add_leaf(nibbles(&key), &[5u8; 40]);
    }
    let root = builder.root();
    let nodes = builder.updated_branch_nodes.as_ref().unwrap();
    let entry = nodes.get(&nibbles(&[])).unwrap();
    assert_eq!(entry.node.root_hash, Some(root));
    assert_eq!(entry.node.state_mask.bits, 0b110);
    assert_eq!(entry.node.hash_mask.bits, 0b100);
    assert_eq!(entry.node.hashes, vec![[0u8; 32]]);
    assert!(entry.slot.is_some());
}

#[test]
fn counts_of_masks_and_nodes() {
    let keys = sorted_keys(&mut Numbers(9), 50, 8, 4);
    let mut builder = ParallelHashBuilder::default();
    for i in 0..keys.len() {
        builder.add_leaf(nibbles(&keys[i]), &[1]);
        let nodes: usize = builder.state_masks.iter().map(|mask| mask.count_ones()).sum();
        assert_eq!(builder.stack.len(), nodes);
        assert_eq!(builder.tree_masks.len(), builder.hash_masks.len());
        assert!(builder.tree_masks.len() >= builder.state_masks.len());
        if i > 0 {
            let common = nibbles(&keys[i]).common_prefix_length(&nibbles(&keys[i - 1]));
            assert_eq!(builder.state_masks.len(), common + 1);
        }
    }
}

#[test]
fn long_values_make_the_builder_ready_to_split() {
    let keys = sorted_keys(&mut Numbers(13), 40, 6, 3);
    let mut builder = ParallelHashBuilder::default().with_updates(true);
    for key in &keys {
        builder.add_leaf(nibbles(key), &[0u8; 32]);
    }
    builder.root();
    assert!(builder.updates_len() > 0);
    assert!(builder.try_split().is_ok());
}

#[test]
fn keys_that_are_admitted() {
    let mut builder = ParallelHashBuilder::default();
    assert!(!builder.admits(&nibbles(&[])));
    assert!(builder.admits(&nibbles(&[0])));
    builder.add_leaf(nibbles(&[1, 2]), &[1]);
    assert!(builder.admits(&nibbles(&[1, 3])));
    assert!(builder.admits(&nibbles(&[2])));
    assert!(!builder.admits(&nibbles(&[1, 2])));
    assert!(!builder.admits(&nibbles(&[1, 2, 0])));
    assert!(!builder.admits(&nibbles(&[1, 1])));
    builder.root();
    assert!(builder.admits(&nibbles(&[1, 1])));
}

#[test]
fn setting_updates_changes_nothing_else() {
    let mut builder = ParallelHashBuilder::default();
    builder.add_branch(nibbles(&[1, 2]), [7; 32], true);
    builder.add_leaf(nibbles(&[2, 1]), &[3]);
    let before = format!("{:?} {:?} {:?}", builder.key, builder.value, builder.stack);
    builder.set_updates(true);
    assert_eq!(before, format!("{:?} {:?} {:?}", builder.key, builder.value, builder.stack));
    assert_eq!(builder.updated_branch_nodes.as_ref().unwrap().len(), 0);
    builder.set_updates(false);
    assert!(builder.updated_branch_nodes.is_some());
    let (split, nodes) = builder.split();
    assert_eq!(nodes.len(), 0);
    assert!(split.updated_branch_nodes.is_none());
    assert_eq!(before, format!("{:?} {:?} {:?}", split.key, split.value, split.stack));
}

#[test]
fn hash_stands_for_the_subtree_whatever_the_flag() {
    let value = [9u8; 40];
    let mut below = ParallelHashBuilder::default();
    below.add_leaf(nibbles(&[1, 0]), &value);
    below.add_leaf(nibbles(&[9, 0]), &value);
    let hash = below.root();
    let mut whole = ParallelHashBuilder::default();
    whole.add_leaf(nibbles(&[3, 1, 0]), &value);
    whole.add_leaf(nibbles(&[3, 9, 0]), &value);
    whole.add_leaf(nibbles(&[4, 0, 0]), &value);
    let root = whole.root();
    for stored in [false, true] {
        let mut small = ParallelHashBuilder::default();
        small.add_branch(nibbles(&[3]), hash, stored);
        small.add_leaf(nibbles(&[4, 0, 0]), &value);
        assert_eq!(small.root(), root);
    }
}

#[test]
fn order_of_keys() {
    assert!(nibbles(&[1, 2]).follows(&nibbles(&[1, 1])));
    assert!(!nibbles(&[1, 1]).follows(&nibbles(&[1, 2])));
    assert!(!nibbles(&[1, 2]).follows(&nibbles(&[1, 2])));
    assert!(!nibbles(&[1, 2, 3]).follows(&nibbles(&[1, 2])));
}

#[test]
fn masks() {
    let mask = TrieMask::from_nibble(3).union(TrieMask::from_nibble(15));
    assert_eq!(mask.bits, 0x8008);
    assert_eq!(mask.count_ones(), 2);
    assert!(mask.is_bit_set(15));
    assert!(!mask.is_bit_set(14));
    assert_eq!(mask.without(TrieMask::from_nibble(3)).bits, 0x8000);
    assert!(TrieMask::from_nibble(3).is_subset_of(mask));
    assert!(!mask.is_subset_of(TrieMask::from_nibble(3)));
    assert!(TrieMask::new(0).is_empty());
}

#[test]
fn nibbles_of_bytes() {
    let path = Nibbles::unpack(&[0x12, 0xf0]);
    assert_eq!(path.as_slice(), &[1, 2, 15, 0]);
    assert_eq!(path.slice(1, 3).as_slice(), &[2, 15]);
    assert_eq!(path.common_prefix_length(&nibbles(&[1, 2, 3])), 2);
}

#[test]
fn complete_branches_stay() {
    let value = [5u8; 40];
    let mut builder = ParallelHashBuilder::default().with_updates(true);
    for key in [[1, 1, 1], [1, 1, 2], [1, 2, 1], [2, 0, 0]] {
        builder.add_leaf(nibbles(&key), &value);
    }
    // The branch at 1 is complete.
    assert_eq!(builder.updates_len(), 1);
    let mut before = builder;
    for key in [[2, 0, 1], [2, 1, 0], [5, 0, 0]] {
        before.add_leaf(nibbles(&key), &value);
    }
    assert_eq!(before.updates_len(), 2);
    before.root();
    let (_, updates) = before.split();
    let node = updates.get(&nibbles(&[1])).unwrap();
    assert_eq!(node.state_mask.bits, 1 << 1 | 1 << 2);
    assert_eq!(node.hash_mask.bits, 1 << 1);
    assert_eq!(updates.len(), 3);
}

#[test]
fn each_key_follows_all_before() {
    let keys = sorted_keys(&mut Numbers(5), 20, 8, 4);
    for i in 0..keys.len() {
        for j in 0..i {
            assert!(nibbles(&keys[i]).follows(&nibbles(&keys[j])));
            assert!(!nibbles(&keys[j]).follows(&nibbles(&keys[i])));
        }
    }
}
