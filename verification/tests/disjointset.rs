use disjoint_set::disjointset::DisjointSetHashMap;

#[test]
fn reflexive_after_register() {
    let mut djs = DisjointSetHashMap::new();
    for e in [3u64, 17, 400, 0, u64::MAX] {
        djs.make_set(e);
    }
    for e in [3u64, 17, 400, 0, u64::MAX] {
        assert_eq!(djs.get_representative(e), e);
    }
}

#[test]
fn first_element_of_empty_registry() {
    let mut djs = DisjointSetHashMap::new();
    djs.make_set(42);
    assert_eq!(djs.get_representative(42), 42);
}

#[test]
fn register_idempotent() {
    let mut djs = DisjointSetHashMap::new();
    djs.make_set(7);
    djs.make_set(7);
    assert_eq!(djs.get_representative(7), 7);
    djs.make_set(8);
    assert!(djs.union(7, 8));
    djs.make_set(7);
    assert_eq!(djs.get_representative(7), 8);
}

#[test]
fn union_connects_both_arguments() {
    let mut djs = DisjointSetHashMap::new();
    djs.make_set(1);
    djs.make_set(2);
    assert!(djs.union(1, 2));
    assert_eq!(djs.get_representative(1), djs.get_representative(2));
}

#[test]
fn union_attaches_first_root_under_second() {
    let mut djs = DisjointSetHashMap::new();
    djs.make_set(1);
    djs.make_set(2);
    assert!(djs.union(1, 2));
    assert_eq!(djs.get_representative(1), 2);
    assert_eq!(djs.get_representative(2), 2);

    let mut other = DisjointSetHashMap::new();
    other.make_set(1);
    other.make_set(2);
    assert!(other.union(2, 1));
    assert_eq!(other.get_representative(1), 1);
    assert_eq!(other.get_representative(2), 1);
}

#[test]
fn union_transitive() {
    let mut djs = DisjointSetHashMap::new();
    djs.make_set(10);
    djs.make_set(20);
    djs.make_set(30);
    assert!(djs.union(10, 20));
    assert!(djs.union(20, 30));
    assert_eq!(djs.get_representative(10), djs.get_representative(30));
}

#[test]
fn union_failure_leaves_state_unchanged() {
    let mut djs = DisjointSetHashMap::new();
    djs.make_set(1);
    djs.make_set(2);
    djs.make_set(3);
    assert!(djs.union(1, 2));
    let before: Vec<u64> = [1u64, 2, 3].iter().map(|&e| djs.get_representative(e)).collect();
    assert!(!djs.union(7, 1));
    assert!(!djs.union(1, 7));
    assert!(!djs.union(7, 8));
    let after: Vec<u64> = [1u64, 2, 3].iter().map(|&e| djs.get_representative(e)).collect();
    assert_eq!(before, after);
}

#[test]
fn union_of_already_merged_groups_succeeds() {
    let mut djs = DisjointSetHashMap::new();
    djs.make_set(1);
    djs.make_set(2);
    assert!(djs.union(1, 2));
    assert!(djs.union(1, 2));
    assert!(djs.union(2, 1));
    assert_eq!(djs.get_representative(1), 2);
    assert_eq!(djs.get_representative(2), 2);
}

#[test]
fn union_of_element_with_itself() {
    let mut djs = DisjointSetHashMap::new();
    djs.make_set(5);
    assert!(djs.union(5, 5));
    assert_eq!(djs.get_representative(5), 5);
}

#[test]
fn repeated_lookups_after_long_chain_are_stable() {
    let mut djs = DisjointSetHashMap::new();
    for e in 0u64..100 {
        djs.make_set(e);
    }
    // Chain the groups so that 0's root is reached through many hops, then
    // check that repeated lookups keep resolving to the same representative.
    for e in 0u64..99 {
        assert!(djs.union(e, e + 1));
    }
    let first = djs.get_representative(0);
    assert_eq!(first, 99);
    for _ in 0..10 {
        assert_eq!(djs.get_representative(0), first);
    }
    for e in 0u64..100 {
        assert_eq!(djs.get_representative(e), 99);
    }
}

#[test]
fn five_element_scenario() {
    let mut djs = DisjointSetHashMap::new();
    for e in 1u64..=5 {
        djs.make_set(e);
    }
    assert!(djs.union(1, 2));
    assert!(djs.union(3, 4));
    assert!(djs.union(2, 3));
    assert_eq!(djs.get_representative(1), djs.get_representative(4));
    assert_eq!(djs.get_representative(5), 5);
    let before: Vec<u64> = (1u64..=5).map(|e| djs.get_representative(e)).collect();
    assert!(!djs.union(9, 2));
    let after: Vec<u64> = (1u64..=5).map(|e| djs.get_representative(e)).collect();
    assert_eq!(before, after);
}
