use generalized_map::index_allocator::{AllocationNode, IndexAllocator};
use std::cmp::Ordering;

#[test]
fn allocator_hands_out_fresh_indices_in_order() {
    let mut a = IndexAllocator::new(0);
    let got: Vec<usize> = (0..5).map(|_| a.reserve_index()).collect();
    assert_eq!(got, vec![0, 1, 2, 3, 4]);
    assert_eq!(a.count, 5);
}

#[test]
fn allocator_scenario_free_then_reserve() {
    let mut a = IndexAllocator::new(0);
    let i1 = a.reserve_index();
    let i2 = a.reserve_index();
    let i3 = a.reserve_index();
    let i4 = a.reserve_index();
    let i5 = a.reserve_index();
    assert_eq!((i1, i2, i3, i4, i5), (0, 1, 2, 3, 4));
    assert!(a.free_index(i4));
    assert!(a.free_index(i2));
    assert_eq!(a.nodes.len(), 2);
    assert_eq!((a.nodes[0].start, a.nodes[0].count), (1, 1));
    assert_eq!((a.nodes[1].start, a.nodes[1].count), (3, 1));
    let i6 = a.reserve_index();
    let i7 = a.reserve_index();
    let i8 = a.reserve_index();
    let i9 = a.reserve_index();
    assert_eq!((i6, i7, i8, i9), (1, 3, 5, 6));
    assert!(a.nodes.is_empty());
}

#[test]
fn allocator_free_then_reserve_gives_index_back() {
    let mut a = IndexAllocator::new(10);
    assert!(a.free_index(4));
    assert_eq!(a.reserve_index(), 4);
    assert_eq!(a.count, 10);
    assert!(a.nodes.is_empty());
}

#[test]
fn allocator_extends_a_run_and_refuses_an_index_inside_it() {
    let mut a = IndexAllocator::new(0);
    for _ in 0..6 {
        a.reserve_index();
    }
    assert!(a.free_index(2));
    assert!(a.free_index(3));
    assert_eq!(a.nodes.len(), 1);
    assert_eq!((a.nodes[0].start, a.nodes[0].count), (2, 2));
    assert!(!a.free_index(2));
    assert_eq!(a.nodes.len(), 1);
    assert_eq!(a.reserve_index(), 2);
    assert_eq!(a.reserve_index(), 3);
    assert_eq!(a.reserve_index(), 6);
}

#[test]
fn run_compares_with_an_index() {
    let n = AllocationNode { start: 2, count: 2 };
    assert!(n == 2usize);
    assert!(n == 4usize);
    assert!(n != 5usize);
    assert!(n != 1usize);
    assert_eq!(n.partial_cmp(&1usize), Some(Ordering::Less));
    assert_eq!(n.partial_cmp(&3usize), Some(Ordering::Equal));
    assert_eq!(n.partial_cmp(&7usize), Some(Ordering::Greater));
}
