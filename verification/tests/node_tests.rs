use ida_rs::{Ida, IdaNode};

// The tree node can be driven directly, giving any subtree height from a
// single 64-id leaf up to the full 11-level id space.
const TOP_LEVEL: usize = 10;

#[test]
fn leaf_fills_up_then_reports_exhaustion() {
    // A leaf spans exactly 64 ids; the 65th allocation must report
    // exhaustion rather than wrap or panic.
    let mut leaf = IdaNode::new();
    for i in 0..64 {
        assert_eq!(leaf.allocate(0), Some(i));
    }
    assert_eq!(leaf.allocate(0), None);
    leaf.free(3, 0);
    assert_eq!(leaf.allocate(0), Some(3));
    assert_eq!(leaf.allocate(0), None);
}

#[test]
fn node_query_and_free_use_reduced_ids() {
    // At level 0 only the low six bits of the id select the bit: 100 and 36
    // name the same slot of a leaf.
    let mut leaf = IdaNode::new();
    assert_eq!(leaf.allocate(0), Some(0));
    for i in 1..=36 {
        assert_eq!(leaf.allocate(0), Some(i));
    }
    assert!(leaf.is_allocated(36, 0));
    assert!(leaf.is_allocated(100, 0));
    leaf.free(100, 0);
    assert!(!leaf.is_allocated(36, 0));
    assert_eq!(leaf.allocate(0), Some(36));
}

#[test]
fn two_level_tree_crosses_leaf_boundary() {
    let mut tree = IdaNode::new();
    for i in 0..64 {
        assert_eq!(tree.allocate(1), Some(i));
    }
    assert_eq!(tree.allocate(1), Some(64));
    assert!(tree.is_allocated(64, 1));
    assert!(!tree.is_allocated(65, 1));
    tree.free(64, 1);
    assert!(!tree.is_allocated(64, 1));
}

#[test]
fn full_height_tree_allocates_from_zero() {
    let mut tree = IdaNode::new();
    assert_eq!(tree.allocate(TOP_LEVEL), Some(0));
    assert_eq!(tree.allocate(TOP_LEVEL), Some(1));
    assert!(tree.is_allocated(0, TOP_LEVEL));
    assert!(!tree.is_allocated(2, TOP_LEVEL));
    tree.free(0, TOP_LEVEL);
    assert_eq!(tree.allocate(TOP_LEVEL), Some(0));
}

#[test]
fn reuse_is_ordered_by_value_not_recency() {
    // Free 3 then 1: the next allocations return 1 then 3, the numeric
    // order, not the order of freeing.
    let ida = Ida::default();
    for i in 0..6 {
        assert_eq!(ida.allocate(), Some(i));
    }
    ida.free(3);
    ida.free(1);
    assert_eq!(ida.allocate(), Some(1));
    assert_eq!(ida.allocate(), Some(3));
    assert_eq!(ida.allocate(), Some(6));
}

#[test]
fn unrelated_ids_are_untouched() {
    let ida = Ida::default();
    assert_eq!(ida.allocate(), Some(0));
    assert_eq!(ida.allocate(), Some(1));
    assert_eq!(ida.allocate(), Some(2));
    ida.free(1);
    // Ids 0 and 2 keep their state across the free of 1.
    assert!(ida.is_allocated(0));
    assert!(!ida.is_allocated(1));
    assert!(ida.is_allocated(2));
    // A free of a never-allocated id changes nothing either.
    ida.free(4096);
    assert!(ida.is_allocated(0));
    assert!(ida.is_allocated(2));
    assert_eq!(ida.allocate(), Some(1));
}

#[test]
fn repeated_fill_and_drain_cycles_return_to_fresh_state() {
    // Fully allocating then fully freeing the same range over and over must
    // bring the allocator back to its initial behaviour each time: the tree
    // prunes emptied subtrees instead of accumulating them.
    let ida = Ida::default();
    for _ in 0..5 {
        for i in 0..130 {
            assert_eq!(ida.allocate(), Some(i));
        }
        for i in 0..130 {
            ida.free(i);
        }
    }
    assert_eq!(ida.allocate(), Some(0));
    assert!(!ida.is_allocated(1));
}

#[test]
fn extreme_ids_are_handled() {
    let ida = Ida::default();
    assert!(!ida.is_allocated(u64::MAX));
    ida.free(u64::MAX); // no-op on the farthest possible id
    assert_eq!(ida.allocate(), Some(0));
    assert!(!ida.is_allocated(u64::MAX));
}

#[test]
fn sequential_ids_are_pairwise_distinct() {
    let ida = Ida::default();
    let mut seen = Vec::new();
    for _ in 0..1000 {
        seen.push(ida.allocate().unwrap());
    }
    let mut sorted = seen.clone();
    sorted.sort();
    sorted.dedup();
    assert_eq!(sorted.len(), seen.len());
}
