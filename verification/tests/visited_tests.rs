use tile_search::visited::VisitedStore;

#[test]
fn membership_is_exact_equality() {
    let mut v = VisitedStore::new();
    v.insert(vec![1, 2, 3, 8, 0, 4, 7, 6, 5]);
    assert!(v.contains(&vec![1, 2, 3, 8, 0, 4, 7, 6, 5]));
    // neither a prefix nor an infix of a recorded key matches
    assert!(!v.contains(&vec![1, 2, 3]));
    assert!(!v.contains(&vec![8, 0, 4]));
    // nor does a longer key that contains a recorded one
    assert!(!v.contains(&vec![1, 2, 3, 8, 0, 4, 7, 6, 5, 9]));
}

#[test]
fn empty_store_contains_nothing() {
    let v = VisitedStore::new();
    assert_eq!(v.len(), 0);
    assert!(!v.contains(&vec![0]));
    assert!(!v.contains(&Vec::new()));
}

#[test]
fn insertion_grows_the_record() {
    let mut v = VisitedStore::new();
    v.insert(vec![1, 0]);
    v.insert(vec![0, 1]);
    assert_eq!(v.len(), 2);
    assert!(v.contains(&vec![1, 0]));
    assert!(v.contains(&vec![0, 1]));
    assert!(!v.contains(&vec![1, 1]));
}
