use lib::node::{Branch, Leaf, Node};
use lib::nybble::{bytes_eq, nybble_index, nybble_mismatch, starts_with};

fn leaf(key: &[u8], val: u32) -> Node<u32> {
    Node::Leaf(Leaf::new(key.to_vec(), val))
}

fn trie(keys: &[&[u8]]) -> Node<u32> {
    let mut root = leaf(keys[0], 0);
    for (i, k) in keys.iter().enumerate().skip(1) {
        root.insert(k.to_vec(), i as u32);
    }
    root
}

fn value_of(node: &Node<u32>, key: &[u8]) -> Option<u32> {
    node.get(key).map(|l| l.val)
}

fn keys_of(node: &Node<u32>) -> Vec<Vec<u8>> {
    node.iter().into_iter().map(|(k, _)| k.clone()).collect()
}

#[test]
fn nybble_index_reads_low_half_first() {
    assert_eq!(nybble_index(0, &[0x21]), 2);
    assert_eq!(nybble_index(1, &[0x21]), 3);
    assert_eq!(nybble_index(2, &[0x21]), 0);
    assert_eq!(nybble_index(3, &[0x21, 0xF0]), 16);
    assert_eq!(nybble_index(2, &[0x21, 0xF0]), 1);
    assert_eq!(nybble_index(0, &[]), 0);
}

#[test]
fn nybble_mismatch_finds_first_differing_position() {
    assert_eq!(nybble_mismatch(&[0x21], &[0x21]), None);
    assert_eq!(nybble_mismatch(&[0x21], &[0x22]), Some(0));
    assert_eq!(nybble_mismatch(&[0x21], &[0x31]), Some(1));
    assert_eq!(nybble_mismatch(&[0x21], &[0x21, 0x00]), Some(2));
    assert_eq!(nybble_mismatch(b"abc", b"abd"), Some(4));
    assert_eq!(nybble_mismatch(b"", b""), None);
    assert_eq!(nybble_mismatch(b"", b"a"), Some(0));
}

#[test]
fn byte_string_comparisons() {
    assert!(starts_with(b"abc", b"ab"));
    assert!(starts_with(b"abc", b""));
    assert!(!starts_with(b"ab", b"abc"));
    assert!(!starts_with(b"abc", b"ac"));
    assert!(bytes_eq(b"abc", b"abc"));
    assert!(!bytes_eq(b"abc", b"abd"));
    assert!(!bytes_eq(b"ab", b"abc"));
}

#[test]
fn leaf_new_and_key_slice() {
    let l = Leaf::new(b"key".to_vec(), 7u32);
    assert_eq!(l.key_slice(), b"key");
    assert_eq!(l.val, 7);
}

#[test]
fn insert_then_get() {
    let mut root = leaf(b"abc", 1);
    assert_eq!(root.insert(b"abd".to_vec(), 2), None);
    assert_eq!(root.insert(b"b".to_vec(), 3), None);
    assert_eq!(root.insert(b"ab".to_vec(), 4), None);
    assert_eq!(root.insert(b"".to_vec(), 5), None);
    assert_eq!(value_of(&root, b"abc"), Some(1));
    assert_eq!(value_of(&root, b"abd"), Some(2));
    assert_eq!(value_of(&root, b"b"), Some(3));
    assert_eq!(value_of(&root, b"ab"), Some(4));
    assert_eq!(value_of(&root, b""), Some(5));
    assert_eq!(value_of(&root, b"a"), None);
    assert_eq!(value_of(&root, b"abcd"), None);
    assert_eq!(root.count(), 5);
}

#[test]
fn insert_existing_key_replaces_value() {
    let mut root = trie(&[b"abc", b"abd", b"x"]);
    assert_eq!(root.insert(b"abd".to_vec(), 40), Some(1));
    assert_eq!(value_of(&root, b"abd"), Some(40));
    assert_eq!(root.count(), 3);
    let mut single = leaf(b"k", 1);
    assert_eq!(single.insert(b"k".to_vec(), 2), Some(1));
    assert_eq!(value_of(&single, b"k"), Some(2));
    assert_eq!(single.count(), 1);
}

#[test]
fn insert_grafts_a_branch_at_the_first_mismatch() {
    let mut root = leaf(b"abc", 1);
    root.insert(b"abd".to_vec(), 2);
    match &root {
        Node::Branch(b) => {
            assert_eq!(b.choice, 4);
            assert_eq!(b.entries.keys, vec![4u8, 5u8]);
        }
        Node::Leaf(_) => panic!("expected a branch"),
    }
    // a key differing earlier grafts a new branch above the old one
    root.insert(b"b".to_vec(), 3);
    match &root {
        Node::Branch(b) => {
            assert_eq!(b.choice, 0);
            assert_eq!(b.entries.keys, vec![2u8, 3u8]);
        }
        Node::Leaf(_) => panic!("expected a branch"),
    }
}

#[test]
fn insert_with_graft_point_hands_back_the_value() {
    let mut root = leaf(b"abc", 1);
    let e = root.get_exemplar(b"abx").key.clone();
    let m = nybble_mismatch(&e, b"abx").unwrap();
    let g = nybble_index(m, &e);
    let v = root.insert_with_graft_point(m, g, b"abx".to_vec(), 9);
    assert_eq!(*v, 9);
    *v = 10;
    assert_eq!(value_of(&root, b"abx"), Some(10));
    assert_eq!(value_of(&root, b"abc"), Some(1));
    assert_eq!(root.count(), 2);
}

#[test]
fn iteration_follows_nybble_order() {
    // 0x21 has low nybble 1, 0x12 low nybble 2: 0x21 comes first.
    let root = trie(&[&[0x12], &[0x21]]);
    assert_eq!(keys_of(&root), vec![vec![0x21u8], vec![0x12u8]]);
    // a key that ends first sorts before the keys it is a prefix of
    let root = trie(&[b"ab", b"a", b"abc"]);
    assert_eq!(keys_of(&root), vec![b"a".to_vec(), b"ab".to_vec(), b"abc".to_vec()]);
    let entries: Vec<(Vec<u8>, u32)> = root.into_iter();
    assert_eq!(entries, vec![(b"a".to_vec(), 1), (b"ab".to_vec(), 0), (b"abc".to_vec(), 2)]);
}

#[test]
fn iteration_lists_each_key_once() {
    let root = trie(&[b"one", b"two", b"three", b"four", b"five", b"six"]);
    let mut keys = keys_of(&root);
    assert_eq!(keys.len(), 6);
    keys.sort();
    keys.dedup();
    assert_eq!(keys.len(), 6);
    for (k, v) in root.iter() {
        assert_eq!(value_of(&root, k), Some(*v));
    }
}

#[test]
fn get_mut_changes_a_value_in_place() {
    let mut root = trie(&[b"abc", b"abd", b"b"]);
    match root.get_mut(b"abd") {
        Some(l) => l.val = 77,
        None => panic!("key is stored"),
    }
    assert!(root.get_mut(b"zzz").is_none());
    assert_eq!(value_of(&root, b"abd"), Some(77));
    assert_eq!(value_of(&root, b"abc"), Some(0));
}

#[test]
fn exemplar_of_a_stored_key_is_its_leaf() {
    let root = trie(&[b"abc", b"abd", b"b"]);
    assert_eq!(root.get_exemplar(b"abd").key_slice(), b"abd");
    assert_eq!(root.get_exemplar(b"abd").val, 1);
    // for a missing key, the exemplar shares the search path
    let e = root.get_exemplar(b"abz");
    assert!(e.key_slice().starts_with(b"ab"));
    let mut root = root;
    root.get_exemplar_mut(b"b").val = 8;
    assert_eq!(value_of(&root, b"b"), Some(8));
}

#[test]
fn remove_from_root() {
    let mut root = Some(trie(&[b"abc", b"abd", b"b"]));
    let removed = Node::remove(&mut root, b"abd").expect("stored");
    assert_eq!(removed.key_slice(), b"abd");
    assert_eq!(removed.val, 1);
    assert!(Node::remove(&mut root, b"abd").is_none());
    assert!(Node::remove(&mut root, b"zz").is_none());
    let r = root.as_ref().unwrap();
    assert_eq!(r.count(), 2);
    assert_eq!(value_of(r, b"abc"), Some(0));
    assert_eq!(value_of(r, b"b"), Some(2));
}

#[test]
fn remove_compresses_single_child_branches() {
    let mut root = Some(trie(&[b"abc", b"abd"]));
    Node::remove(&mut root, b"abc");
    match root.as_ref().unwrap() {
        Node::Leaf(l) => assert_eq!(l.key_slice(), b"abd"),
        Node::Branch(_) => panic!("a branch with one child is replaced by it"),
    }
    let removed = Node::remove(&mut root, b"abd").unwrap();
    assert_eq!(removed.val, 1);
    assert!(root.is_none());
    assert!(Node::<u32>::remove(&mut root, b"abd").is_none());
}

#[test]
fn remove_validated_on_a_branch() {
    let mut root = trie(&[b"abc", b"abd", b"b"]);
    let r = root.remove_validated(b"b").unwrap();
    assert_eq!(r.key_slice(), b"b");
    assert!(root.remove_validated(b"b").is_none());
    assert_eq!(root.count(), 2);
}

#[test]
fn get_prefix_holds_all_and_only_prefixed_keys() {
    let root = trie(&[b"abc", b"abd", b"abde", b"b", b"ba"]);
    let n = root.get_prefix(b"ab").expect("some key begins with ab");
    assert_eq!(n.count(), 3);
    let mut keys = keys_of(n);
    keys.sort();
    assert_eq!(keys, vec![b"abc".to_vec(), b"abd".to_vec(), b"abde".to_vec()]);
    assert_eq!(root.get_prefix(b"b").unwrap().count(), 2);
    assert_eq!(root.get_prefix(b"").unwrap().count(), 5);
    assert_eq!(root.get_prefix(b"abde").unwrap().count(), 1);
    assert!(root.get_prefix(b"c").is_none());
    assert!(root.get_prefix(b"abcd").is_none());
    assert_eq!(root.get_prefix_validated(b"abd").count(), 2);
}

#[test]
fn get_prefix_on_a_leaf() {
    let root = leaf(b"abc", 1);
    assert!(root.get_prefix(b"ab").is_some());
    assert!(root.get_prefix(b"ac").is_none());
}

#[test]
fn get_prefix_mut_changes_values_under_the_prefix() {
    let mut root = trie(&[b"abc", b"abd", b"b"]);
    match root.get_prefix_mut(b"abd") {
        Some(Node::Leaf(l)) => l.val = 50,
        _ => panic!("the prefix abd holds one leaf"),
    }
    assert_eq!(value_of(&root, b"abd"), Some(50));
    assert!(root.get_prefix_mut(b"q").is_none());
    let n = root.get_prefix_validated_mut(b"a");
    assert_eq!(n.count(), 2);
}

#[test]
fn remove_prefix_takes_exactly_the_prefixed_keys() {
    let mut root = Some(trie(&[b"abc", b"abd", b"abde", b"b", b"ba"]));
    let taken = Node::remove_prefix(&mut root, b"ab").expect("some key begins with ab");
    assert_eq!(taken.count(), 3);
    let r = root.as_ref().unwrap();
    assert_eq!(r.count(), 2);
    assert!(r.get_prefix(b"ab").is_none());
    assert_eq!(value_of(r, b"b"), Some(3));
    assert!(Node::remove_prefix(&mut root, b"ab").is_none());
    let all = Node::remove_prefix(&mut root, b"").unwrap();
    assert_eq!(all.count(), 2);
    assert!(root.is_none());
}

#[test]
fn remove_prefix_keeps_keys_that_only_share_part_of_it() {
    // "ab" and "ac" first differ at nybble 2, inside the prefix "ab".
    let mut root = Some(trie(&[b"ab", b"ac"]));
    let taken = Node::remove_prefix(&mut root, b"ab").unwrap();
    assert_eq!(keys_of(&taken), vec![b"ab".to_vec()]);
    assert_eq!(keys_of(root.as_ref().unwrap()), vec![b"ac".to_vec()]);
}

#[test]
fn remove_prefix_validated_on_a_branch() {
    let mut root = trie(&[b"abc", b"abd", b"b"]);
    let taken = root.remove_prefix_validated(b"ab").unwrap();
    assert_eq!(taken.count(), 2);
    assert_eq!(keys_of(&root), vec![b"b".to_vec()]);
}

#[test]
fn equality_compares_keys_not_values() {
    let a = trie(&[b"abc", b"abd", b"b"]);
    let mut b = trie(&[b"abc", b"abd", b"b"]);
    b.insert(b"b".to_vec(), 99);
    assert!(a == b);
    let c = trie(&[b"abc", b"abd", b"c"]);
    assert!(a != c);
    assert!(leaf(b"x", 1) == leaf(b"x", 2));
    assert!(leaf(b"x", 1) != leaf(b"y", 1));
    assert!(leaf(b"x", 1) != a);
    assert!(Leaf::new(b"x".to_vec(), 1) == Leaf::new(b"x".to_vec(), 3));
}

#[test]
fn clone_keeps_keys_and_values() {
    let a = trie(&[b"abc", b"abd", b"b"]);
    let b = a.clone();
    assert!(a == b);
    for (k, v) in a.iter() {
        assert_eq!(value_of(&b, k), Some(*v));
    }
    let l = Leaf::new(b"k".to_vec(), 4u32).clone();
    assert_eq!(l.key_slice(), b"k");
    assert_eq!(l.val, 4);
}

#[test]
fn unwrap_helpers() {
    let mut n = leaf(b"k", 1);
    assert_eq!(n.unwrap_leaf_ref().val, 1);
    n.unwrap_leaf_mut().val = 2;
    assert_eq!(n.unwrap_leaf().val, 2);
    let mut t = trie(&[b"a", b"b"]);
    assert_eq!(t.unwrap_branch_ref().choice, 0);
    assert!(!t.unwrap_branch_mut().is_singleton());
}

#[test]
fn branch_operations() {
    let mut b: Branch<u32> = Branch::new(0);
    assert_eq!(b.index(b"a"), 2);
    assert!(!b.has_entry(2));
    b.insert_leaf(Leaf::new(b"a".to_vec(), 1)).val = 10;
    assert!(b.has_entry(2));
    assert!(b.is_singleton());
    b.insert_leaf(Leaf::new(b"b".to_vec(), 2));
    assert!(!b.is_singleton());
    assert_eq!(b.count(), 2);
    assert_eq!(b.get(b"a").unwrap().val, 10);
    assert!(b.child(b"c").is_none());
    assert!(b.child(b"b").is_some());
    assert!(b.child_mut(b"b").is_some());
    assert_eq!(b.exemplar(b"c").count(), 1);
    b.exemplar_mut(b"b");
    assert_eq!(b.get_exemplar(b"b").val, 2);
    b.get_exemplar_mut(b"b").val = 20;
    assert_eq!(b.get_mut(b"b").unwrap().val, 20);
    match b.entry_mut(3) {
        Node::Leaf(l) => l.val = 30,
        Node::Branch(_) => panic!("slot 3 holds a leaf"),
    }
    assert_eq!(b.get(b"b").unwrap().val, 30);
    assert_eq!(b.iter().count(), 2);
    assert_eq!(b.iter_mut().len(), 2);
    let removed = b.remove(2);
    assert!(matches!(removed, Node::Leaf(ref l) if l.val == 10));
    let last = b.clear_last();
    assert!(matches!(last, Node::Leaf(ref l) if l.val == 30));
    assert_eq!(b.entries.len(), 0);
    let mut outer: Branch<u32> = Branch::new(0);
    let inner = Branch::new(4);
    outer.insert_branch(5, inner).choice = 6;
    assert!(outer.has_entry(5));
    assert_eq!(outer.into_iter().count(), 1);
}

#[test]
fn count_matches_number_of_keys() {
    let mut root = leaf(b"k0", 0);
    for i in 1..50u32 {
        let key = format!("k{}", i).into_bytes();
        assert_eq!(root.insert(key, i), None);
        assert_eq!(root.count(), (i + 1) as usize);
    }
    for i in 0..50u32 {
        let key = format!("k{}", i).into_bytes();
        assert_eq!(value_of(&root, &key), Some(i));
    }
    let mut root = Some(root);
    for i in 0..50u32 {
        let key = format!("k{}", i).into_bytes();
        assert_eq!(Node::remove(&mut root, &key).map(|l| l.val), Some(i));
        assert_eq!(root.as_ref().map(|r| r.count()).unwrap_or(0), 49 - i as usize);
    }
    assert!(root.is_none());
}

#[test]
fn remove_undoes_insert_of_a_new_key() {
    let mut root = Some(trie(&[b"abc", b"abd", b"b"]));
    let before = keys_of(root.as_ref().unwrap());
    root.as_mut().unwrap().insert(b"abe".to_vec(), 5);
    Node::remove(&mut root, b"abe");
    assert_eq!(keys_of(root.as_ref().unwrap()), before);
}

#[test]
fn iter_mut_writes_values_in_place() {
    let mut root = trie(&[b"abc", b"abd", b"b"]);
    let before = keys_of(&root);
    for (k, v) in root.iter_mut() {
        *v += 100 + k.len() as u32;
    }
    assert_eq!(keys_of(&root), before);
    assert_eq!(value_of(&root, b"abc"), Some(103));
    assert_eq!(value_of(&root, b"abd"), Some(104));
    assert_eq!(value_of(&root, b"b"), Some(103));
    let mut single = leaf(b"k", 1);
    let refs = single.iter_mut();
    assert_eq!(refs.len(), 1);
    for (_, v) in refs {
        *v = 5;
    }
    assert_eq!(value_of(&single, b"k"), Some(5));
}

#[test]
fn get_prefix_mut_writes_through_the_subtree() {
    let mut root = trie(&[b"abc", b"abd", b"b"]);
    if let Some(sub) = root.get_prefix_mut(b"ab") {
        for (_, v) in sub.iter_mut() {
            *v = 42;
        }
    }
    assert_eq!(value_of(&root, b"abc"), Some(42));
    assert_eq!(value_of(&root, b"abd"), Some(42));
    assert_eq!(value_of(&root, b"b"), Some(2));
}

#[test]
fn empty_key_sits_in_slot_zero() {
    let root = trie(&[b"a", b""]);
    match &root {
        Node::Branch(b) => {
            assert_eq!(b.entries.keys, vec![0u8, 2u8]);
        }
        Node::Leaf(_) => panic!("expected a branch"),
    }
    assert_eq!(keys_of(&root), vec![b"".to_vec(), b"a".to_vec()]);
}

#[test]
fn count_covers_branches_with_fewer_than_two_children() {
    let mut b: Branch<u32> = Branch::new(0);
    assert_eq!(b.count(), 0);
    b.insert_leaf(Leaf::new(b"a".to_vec(), 1));
    assert_eq!(b.count(), 1);
    b.insert_leaf(Leaf::new(b"b".to_vec(), 2));
    assert_eq!(b.count(), 2);
    let mut inner: Branch<u32> = Branch::new(2);
    inner.insert_leaf(Leaf::new(b"cd".to_vec(), 3));
    b.insert_branch(4, inner);
    assert_eq!(b.count(), 3);
    let taken = b.remove(4);
    assert_eq!(taken.count(), 1);
    assert_eq!(b.count(), 2);
    b.remove(2);
    assert_eq!(b.count(), 1);
    b.clear_last();
    assert_eq!(b.count(), 0);
}

#[test]
fn failed_removals_leave_the_trie_unchanged() {
    let mut root = Some(trie(&[b"abc", b"abd", b"b"]));
    assert!(Node::remove(&mut root, b"zz").is_none());
    assert!(Node::remove_prefix(&mut root, b"q").is_none());
    let r = root.as_mut().unwrap();
    assert!(r.remove_validated(b"abe").is_none());
    assert_eq!(keys_of(r), vec![b"abc".to_vec(), b"abd".to_vec(), b"b".to_vec()]);
    assert!(r == &trie(&[b"abc", b"abd", b"b"]));
}
