use disjoint_set::DisjointSet;

#[test]
fn empty_structure() {
    let ds: DisjointSet<&str> = DisjointSet::new();
    assert_eq!(ds.num_elements(), 0);
    assert_eq!(ds.num_subsets(), 0);
    assert_eq!(ds.read(0), None);
    assert_eq!(ds.lookup(&"anything"), None);
    assert!(!ds.contains(&"anything"));
}

#[test]
fn with_capacity_starts_empty() {
    let ds: DisjointSet<u32> = DisjointSet::with_capacity(16);
    assert_eq!(ds.num_elements(), 0);
    assert_eq!(ds.num_subsets(), 0);
}

#[test]
fn insert_assigns_dense_indices() {
    let mut ds = DisjointSet::new();
    assert_eq!(ds.insert("a"), Ok(0));
    assert_eq!(ds.insert("b"), Ok(1));
    assert_eq!(ds.insert("c"), Ok(2));
    assert_eq!(ds.num_elements(), 3);
    assert_eq!(ds.num_subsets(), 3);
    assert_eq!(ds.lookup(&"a"), Some(0));
    assert_eq!(ds.lookup(&"c"), Some(2));
    assert_eq!(ds.read(1), Some(&"b"));
    assert_eq!(ds.read(3), None);
}

#[test]
fn duplicate_insert_rejected_and_element_returned() {
    let mut ds = DisjointSet::new();
    assert_eq!(ds.insert(String::from("big")), Ok(0));
    let rejected = ds.insert(String::from("big"));
    assert_eq!(rejected, Err(String::from("big")));
    assert_eq!(ds.num_elements(), 1);
    assert_eq!(ds.num_subsets(), 1);
}

#[test]
fn find_root_out_of_range_is_absent() {
    let mut ds = DisjointSet::new();
    ds.insert(10u64).unwrap();
    assert_eq!(ds.find_root(0), Some(0));
    assert_eq!(ds.find_root(1), None);
    assert_eq!(ds.find_root(usize::MAX), None);
}

#[test]
fn find_root_is_idempotent() {
    let mut ds = DisjointSet::new();
    for x in 0..6u32 {
        ds.insert(x).unwrap();
    }
    ds.union(0, 1).unwrap();
    ds.union(1, 2).unwrap();
    ds.union(2, 3).unwrap();
    let first = ds.find_root(3);
    let second = ds.find_root(3);
    assert!(first.is_some());
    assert_eq!(first, second);
}

#[test]
fn same_set_distinguishes_absent_from_different() {
    let mut ds = DisjointSet::new();
    ds.insert('x').unwrap();
    ds.insert('y').unwrap();
    assert_eq!(ds.same_set(0, 1), Some(false));
    assert_eq!(ds.same_set(0, 0), Some(true));
    assert_eq!(ds.same_set(0, 2), None);
    assert_eq!(ds.same_set(5, 0), None);
}

#[test]
fn union_merges_and_counts() {
    let mut ds = DisjointSet::new();
    for x in 0..4i32 {
        ds.insert(x).unwrap();
    }
    assert_eq!(ds.num_subsets(), 4);
    assert_eq!(ds.union(0, 1), Some(true));
    assert_eq!(ds.num_subsets(), 3);
    assert_eq!(ds.union(1, 0), Some(false));
    assert_eq!(ds.num_subsets(), 3);
    assert_eq!(ds.union(2, 3), Some(true));
    assert_eq!(ds.num_subsets(), 2);
    assert_eq!(ds.union(0, 3), Some(true));
    assert_eq!(ds.num_subsets(), 1);
    assert_eq!(ds.union(0, 4), None);
    assert_eq!(ds.same_set(0, 3), Some(true));
}

#[test]
fn union_is_symmetric() {
    let mut left = DisjointSet::new();
    let mut right = DisjointSet::new();
    for x in 0..3u8 {
        left.insert(x).unwrap();
        right.insert(x).unwrap();
    }
    assert_eq!(left.union(0, 2), Some(true));
    assert_eq!(right.union(2, 0), Some(true));
    assert_eq!(left.same_set(0, 2), Some(true));
    assert_eq!(right.same_set(0, 2), Some(true));
    assert_eq!(left.same_set(0, 1), Some(false));
    assert_eq!(right.same_set(0, 1), Some(false));
}

#[test]
fn read_mut_changes_only_the_payload() {
    let mut ds = DisjointSet::new();
    ds.insert(String::from("old")).unwrap();
    ds.insert(String::from("other")).unwrap();
    ds.union(0, 1).unwrap();
    if let Some(e) = ds.read_mut(0) {
        *e = String::from("new");
    } else {
        panic!("index 0 should be present");
    }
    assert_eq!(ds.read(0), Some(&String::from("new")));
    assert_eq!(ds.lookup(&String::from("old")), None);
    assert_eq!(ds.num_elements(), 2);
    assert_eq!(ds.same_set(0, 1), Some(true));
    assert_eq!(ds.read_mut(7), None);
}
