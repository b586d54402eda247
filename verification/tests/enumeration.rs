use disjoint_set::DisjointSet;

fn sorted(mut v: Vec<usize>) -> Vec<usize> {
    v.sort();
    v
}

#[test]
fn singleton_chain_holds_only_the_element() {
    let mut ds = DisjointSet::new();
    ds.insert("solo").unwrap();
    assert_eq!(ds.subset_members(0), Some(vec![0]));
    assert_eq!(ds.subset_size(0), Some(1));
    assert_eq!(ds.subset_members(1), None);
    assert_eq!(ds.subset_size(1), None);
}

#[test]
fn chains_cover_merged_subsets_exactly() {
    let mut ds = DisjointSet::new();
    for x in 0..6u32 {
        ds.insert(x).unwrap();
    }
    assert_eq!(ds.union(0, 1), Some(true));
    assert_eq!(ds.union(2, 3), Some(true));
    assert_eq!(ds.union(0, 2), Some(true));
    let members = ds.subset_members(3).expect("index 3 is present");
    assert_eq!(members.len(), 4);
    assert_eq!(sorted(members), vec![0, 1, 2, 3]);
    assert_eq!(ds.subset_size(1), Some(4));
    assert_eq!(ds.subset_members(4), Some(vec![4]));
    assert_eq!(ds.subset_size(5), Some(1));
}

#[test]
fn chain_starts_at_the_root_and_has_no_duplicates() {
    let mut ds = DisjointSet::new();
    for x in 0..5i64 {
        ds.insert(x).unwrap();
    }
    ds.union(0, 1).unwrap();
    ds.union(2, 0).unwrap();
    ds.union(3, 4).unwrap();
    let root = ds.find_root(2).expect("index 2 is present");
    let members = ds.subset_members(2).expect("index 2 is present");
    assert_eq!(members[0], root);
    assert_eq!(members.len(), 3);
    let mut seen = members.clone();
    seen.sort();
    seen.dedup();
    assert_eq!(seen.len(), members.len());
}

#[test]
fn every_member_lists_the_same_subset() {
    let mut ds = DisjointSet::new();
    for x in 0..4u16 {
        ds.insert(x).unwrap();
    }
    ds.union(0, 3).unwrap();
    ds.union(3, 1).unwrap();
    let from_zero = sorted(ds.subset_members(0).unwrap());
    let from_one = sorted(ds.subset_members(1).unwrap());
    let from_three = sorted(ds.subset_members(3).unwrap());
    assert_eq!(from_zero, vec![0, 1, 3]);
    assert_eq!(from_zero, from_one);
    assert_eq!(from_zero, from_three);
}

#[test]
fn subset_sizes_sum_to_element_count() {
    let mut ds = DisjointSet::new();
    for x in 0..10u32 {
        ds.insert(x).unwrap();
    }
    ds.union(0, 9).unwrap();
    ds.union(1, 2).unwrap();
    ds.union(2, 4).unwrap();
    ds.union(5, 6).unwrap();
    ds.union(6, 0).unwrap();
    let mut roots = Vec::new();
    let mut total = 0;
    for i in 0..ds.num_elements() {
        let r = ds.find_root(i).unwrap();
        if !roots.contains(&r) {
            roots.push(r);
            total += ds.subset_size(i).unwrap();
        }
    }
    assert_eq!(roots.len(), ds.num_subsets());
    assert_eq!(total, ds.num_elements());
}

#[test]
fn members_agree_with_same_set() {
    let mut ds = DisjointSet::new();
    for x in 0..7i32 {
        ds.insert(x).unwrap();
    }
    ds.union(0, 2).unwrap();
    ds.union(4, 6).unwrap();
    ds.union(2, 4).unwrap();
    let members = ds.subset_members(6).unwrap();
    for j in 0..ds.num_elements() {
        assert_eq!(ds.same_set(6, j), Some(members.contains(&j)));
    }
}

#[test]
fn chain_order_follows_next_links() {
    let mut ds = DisjointSet::new();
    for x in 0..3u8 {
        ds.insert(x).unwrap();
    }
    ds.union(0, 1).unwrap();
    ds.union(0, 2).unwrap();
    let members = ds.subset_members(1).unwrap();
    let root = ds.find_root(1).unwrap();
    assert_eq!(members[0], root);
    assert_eq!(members.len(), 3);
}
