use disjoint_set::DisjointSet;

/// Resolves a word to its index, inserting it as a fresh singleton first
/// when it is not yet present.
fn index_of(ds: &mut DisjointSet<&'static str>, word: &'static str) -> usize {
    match ds.lookup(&word) {
        Some(idx) => idx,
        None => ds.insert(word).expect("word was just checked to be absent"),
    }
}

fn add_pair(ds: &mut DisjointSet<&'static str>, w1: &'static str, w2: &'static str) {
    let a = index_of(ds, w1);
    let b = index_of(ds, w2);
    ds.union(a, b);
}

fn are_related(ds: &DisjointSet<&'static str>, w1: &str, w2: &str) -> Option<bool> {
    let a = ds.lookup(&w1)?;
    let b = ds.lookup(&w2)?;
    ds.same_set(a, b)
}

#[test]
fn synonym_dictionary_scenario() {
    let mut ds = DisjointSet::new();
    for w in ["big", "large", "eat", "consume", "huge", "wants", "loves"] {
        ds.insert(w).unwrap();
    }
    let big = ds.lookup(&"big").unwrap();
    let large = ds.lookup(&"large").unwrap();
    let eat = ds.lookup(&"eat").unwrap();
    let consume = ds.lookup(&"consume").unwrap();
    let huge = ds.lookup(&"huge").unwrap();
    let wants = ds.lookup(&"wants").unwrap();
    let loves = ds.lookup(&"loves").unwrap();
    assert_eq!(ds.union(big, large), Some(true));
    assert_eq!(ds.union(big, huge), Some(true));
    assert_eq!(ds.union(eat, consume), Some(true));
    assert_eq!(ds.union(wants, loves), Some(true));
    assert_eq!(ds.num_subsets(), 3);
    assert_eq!(ds.same_set(large, huge), Some(true));
    assert_eq!(ds.same_set(large, eat), Some(false));
}

#[test]
fn pairs_added_in_any_order_relate_the_same_words() {
    let mut ds = DisjointSet::new();
    add_pair(&mut ds, "big", "large");
    add_pair(&mut ds, "eat", "consume");
    add_pair(&mut ds, "huge", "big");
    add_pair(&mut ds, "wants", "loves");
    assert_eq!(ds.num_subsets(), 3);
    assert_eq!(are_related(&ds, "large", "huge"), Some(true));
    assert_eq!(are_related(&ds, "consume", "eat"), Some(true));
    assert_eq!(are_related(&ds, "large", "eat"), Some(false));
    assert_eq!(are_related(&ds, "big", "missing"), None);
}
