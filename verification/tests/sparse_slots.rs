use lib::sparse::Sparse;

#[test]
fn sparse_keeps_entries_in_slot_order() {
    let mut s: Sparse<&str> = Sparse::new();
    assert_eq!(s.len(), 0);
    assert!(!s.contains(3));
    assert_eq!(*s.insert(9, "nine"), "nine");
    s.insert(3, "three");
    s.insert(16, "sixteen");
    s.insert(0, "zero");
    assert_eq!(s.keys, vec![0u8, 3, 9, 16]);
    assert_eq!(s.entries, vec!["zero", "three", "nine", "sixteen"]);
    assert_eq!(s.len(), 4);
    assert!(s.contains(9));
    assert!(!s.contains(4));
    assert_eq!(s.get(3), Some(&"three"));
    assert_eq!(s.get(4), None);
    assert_eq!(*s.get_or_any(16), "sixteen");
    assert_eq!(*s.get_or_any(5), "zero");
    *s.get_mut(9).unwrap() = "NINE";
    assert!(s.get_mut(10).is_none());
    *s.get_or_any_mut(7) = "ZERO";
    assert_eq!(s.entries, vec!["ZERO", "three", "NINE", "sixteen"]);
    assert_eq!(s.remove(3), "three");
    assert_eq!(s.keys, vec![0u8, 9, 16]);
    s.remove(0);
    s.remove(16);
    assert_eq!(s.clear_last(), "NINE");
    assert_eq!(s.len(), 0);
    assert!(s.keys.is_empty());
}
