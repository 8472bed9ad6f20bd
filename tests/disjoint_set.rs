use disjoint_set::DisjointSet;

#[test]
fn test_new() {
    let vec1 = vec![1, 2, 3, 4, 5, 6, 7, 8, 9];
    let mut ds = DisjointSet::new(&vec1);
    let component_count = vec1.len();

    assert_eq!(ds.get_count(), component_count);
    assert_eq!(1, ds.find(&1));
    assert_eq!(vec1.len(), ds.get_count());
    assert!(ds.union(&1, &2));
    assert_eq!(component_count - 1, ds.get_count());
    assert!(ds.union(&3, &4));
    assert_eq!(component_count - 2, ds.get_count());
    assert!(ds.union(&1, &3));
    assert_eq!(component_count - 3, ds.get_count());
    assert!(!vec1.is_empty());
    assert!(ds.connected(&1, &4));
    assert!(!ds.connected(&1, &5));
    assert_eq!(component_count - 3, ds.get_count());
}

#[test]
fn scenario_nine_elements() {
    let mut ds = DisjointSet::new(&vec![1, 2, 3, 4, 5, 6, 7, 8, 9]);
    assert_eq!(ds.get_count(), 9);
    assert!(ds.union(&1, &2));
    assert_eq!(ds.get_count(), 8);
    assert!(ds.union(&3, &4));
    assert_eq!(ds.get_count(), 7);
    assert!(ds.union(&1, &3));
    assert_eq!(ds.get_count(), 6);
    assert!(ds.connected(&1, &4));
    assert!(!ds.connected(&1, &5));
    assert_eq!(ds.get_count(), 6);
}

#[test]
fn every_built_element_is_its_own_root() {
    let v = vec![4, 8, 15, 16, 23, 42];
    let mut ds = DisjointSet::new(&v);
    for x in &v {
        assert_eq!(ds.find(x), *x);
    }
    assert_eq!(ds.get_count(), 6);
}

#[test]
fn first_lookup_of_new_element_returns_it() {
    let mut ds = DisjointSet::new(&vec![1, 2]);
    assert_eq!(ds.find(&77), 77);
    assert_eq!(ds.find(&77), 77);
    assert_eq!(ds.get_count(), 3);
}

#[test]
fn count_of_unique_elements() {
    let ds = DisjointSet::new(&vec![10, 20, 30, 40]);
    assert_eq!(ds.get_count(), 4);
}

#[test]
fn empty_structure() {
    let mut ds = DisjointSet::new(&vec![]);
    assert_eq!(ds.get_count(), 0);
    assert!(!ds.connected(&1, &2));
    assert_eq!(ds.get_count(), 2);
}

#[test]
fn repeated_elements_are_counted_from_length() {
    let mut ds = DisjointSet::new(&vec![5, 5, 6]);
    assert_eq!(ds.get_count(), 3);
    assert_eq!(ds.find(&5), 5);
    assert!(ds.union(&5, &6));
    assert_eq!(ds.get_count(), 2);
}

#[test]
fn union_then_connected_and_count_drops() {
    let mut ds = DisjointSet::new(&vec![1, 2, 3]);
    assert!(ds.union(&2, &3));
    assert!(ds.connected(&2, &3));
    assert!(ds.connected(&3, &2));
    assert_eq!(ds.get_count(), 2);
}

#[test]
fn second_union_returns_false() {
    let mut ds = DisjointSet::new(&vec![1, 2, 3]);
    assert!(ds.union(&1, &2));
    assert_eq!(ds.get_count(), 2);
    assert!(!ds.union(&1, &2));
    assert!(!ds.union(&2, &1));
    assert_eq!(ds.get_count(), 2);
}

#[test]
fn union_of_an_element_with_itself() {
    let mut ds = DisjointSet::new(&vec![1, 2]);
    assert!(!ds.union(&1, &1));
    assert_eq!(ds.get_count(), 2);
}

#[test]
fn lookups_are_idempotent() {
    let mut ds = DisjointSet::new(&vec![1, 2, 3, 4]);
    assert!(ds.union(&1, &2));
    assert!(ds.union(&3, &4));
    let r = ds.find(&4);
    assert_eq!(ds.find(&4), r);
    assert_eq!(ds.find(&4), r);
    let c = ds.connected(&2, &4);
    assert_eq!(ds.connected(&2, &4), c);
    assert!(!c);
    assert_eq!(ds.get_count(), 2);
}

#[test]
fn tie_puts_second_root_under_first() {
    let mut ds = DisjointSet::new(&vec![1, 2]);
    assert!(ds.union(&1, &2));
    assert_eq!(ds.find(&2), 1);
    assert_eq!(ds.find(&1), 1);
}

#[test]
fn lower_tree_goes_under_higher() {
    let mut ds = DisjointSet::new(&vec![1, 2, 3]);
    assert!(ds.union(&1, &2));
    // 3 has height 0, 1 has height 1: 3 goes under 1 though it is named first.
    assert!(ds.union(&3, &1));
    assert_eq!(ds.find(&3), 1);
    assert_eq!(ds.find(&2), 1);
}

#[test]
fn deep_paths_keep_their_sets_after_compression() {
    let v: Vec<u64> = (1..=10).collect();
    let mut ds = DisjointSet::new(&v);
    assert!(ds.union(&1, &2));
    assert!(ds.union(&3, &4));
    assert!(ds.union(&1, &3));
    assert!(ds.union(&5, &6));
    assert!(ds.union(&7, &8));
    assert!(ds.union(&5, &7));
    assert!(ds.union(&1, &5));
    // 8 -> 7 -> 5 -> 1 before any compression.
    assert_eq!(ds.find(&8), 1);
    for x in 1..=8u64 {
        assert_eq!(ds.find(&x), 1);
    }
    for x in 1..=8u64 {
        for y in 1..=8u64 {
            assert!(ds.connected(&x, &y));
        }
        assert!(!ds.connected(&x, &9));
        assert!(!ds.connected(&x, &10));
    }
    assert_eq!(ds.get_count(), 3);
}

#[test]
fn connectivity_matches_joined_pairs() {
    let v: Vec<u64> = (0..12).collect();
    let mut ds = DisjointSet::new(&v);
    let pairs = [(0u64, 1u64), (2, 3), (1, 3), (4, 5), (6, 7), (5, 7), (8, 9), (3, 0)];
    for (a, b) in pairs.iter() {
        ds.union(a, b);
    }
    for x in &v {
        ds.find(x);
    }
    let group = |x: u64| match x {
        0..=3 => 0,
        4..=7 => 1,
        8 | 9 => 2,
        _ => 3 + x,
    };
    for x in 0..12u64 {
        for y in 0..12u64 {
            assert_eq!(ds.connected(&x, &y), group(x) == group(y));
        }
    }
    assert_eq!(ds.get_count(), 5);
}

#[test]
fn lookup_registers_new_element() {
    let mut ds = DisjointSet::new(&vec![1, 2, 3]);
    assert_eq!(ds.find(&100), 100);
    assert_eq!(ds.get_count(), 4);
    assert_eq!(ds.find(&100), 100);
    assert_eq!(ds.get_count(), 4);
}

#[test]
fn union_registers_new_elements() {
    let mut ds = DisjointSet::new(&vec![1]);
    assert!(ds.union(&50, &60));
    // two new sets, then one merge
    assert_eq!(ds.get_count(), 2);
    assert!(ds.connected(&50, &60));
    assert_eq!(ds.find(&60), 50);
    assert!(ds.union(&1, &70));
    assert_eq!(ds.get_count(), 2);
}

#[test]
fn large_element_values() {
    let mut ds = DisjointSet::new(&vec![u64::MAX, 0]);
    assert!(ds.union(&u64::MAX, &0));
    assert_eq!(ds.find(&0), u64::MAX);
    assert_eq!(ds.get_count(), 1);
}
