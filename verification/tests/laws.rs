use generalized_map::gmap::NGMap;
use generalized_map::index::{DartIndex, MarkIndex};
use generalized_map::index_allocator::IndexAllocator;

fn d(i: usize) -> DartIndex {
    DartIndex(i)
}

#[test]
fn unsew_undoes_sew_of_free_darts() {
    let mut map = NGMap::<2, 0, 0>::new(2);
    let e1 = map.create_edge();
    let e2 = map.create_edge();
    let before: Vec<Vec<DartIndex>> = map.darts.iter().map(|x| x.alphas.clone()).collect();
    assert!(map.sew(&e1.1, &e2.0, 1));
    assert_eq!(map.get_alpha(&e1.1, 1), e2.0);
    map.unsew(&e1.1, &e2.0, 1);
    let after: Vec<Vec<DartIndex>> = map.darts.iter().map(|x| x.alphas.clone()).collect();
    assert_eq!(before, after);
}

#[test]
fn a_freed_index_is_handed_out_once() {
    let mut map = NGMap::<2, 0, 0>::new(2);
    let a = map.create_dart();
    let b = map.create_dart();
    assert!(map.remove_isolated_dart(a));
    let c = map.create_dart();
    let e = map.create_dart();
    assert_eq!(c, a);
    assert_ne!(e, c);
    assert_ne!(e, b);
    assert_eq!(e, d(3));
}

#[test]
fn insert_a_vertex_into_an_edge() {
    let mut map = NGMap::<3, 0, 0>::new(3);
    let darts = map.create_ring(3);
    let d0 = darts[0].1;
    let d1 = darts[1].0;
    assert_eq!(map.iter_darts_in_cell(d0, 2).items.len(), 6);
    let (e0, e1) = map.create_vertex();
    let assoc = vec![(e0, d0), (e1, d1)];
    let ok = map.is_insertable(&d0, &e0, 0, &assoc);
    assert!(ok);
    assert_eq!(map.insert(&d0, &e0, 0, &assoc), ok);
    if ok {
        assert_eq!(map.get_alpha(&e0, 0), d0);
        assert_eq!(map.get_alpha(&d0, 0), e0);
        assert_eq!(map.get_alpha(&e1, 0), d1);
        assert_eq!(map.iter_darts_in_cell(d0, 2).items.len(), 8);
    }
}

#[test]
fn copy_to_is_copy_from_the_other_side() {
    let mut a = NGMap::<3, 0, 0>::new(2);
    a.create_chain(2);
    let mut b = NGMap::<3, 0, 0>::new(2);
    assert!(a.copy_to(&mut b));
    assert_eq!(b.darts.len(), 5);
    assert_eq!(b.get_alpha(&d(2), 1), d(3));
}

#[test]
fn copy_refused_for_more_weak_links() {
    let a = NGMap::<3, 0, 2>::new(2);
    let mut b = NGMap::<3, 0, 0>::new(2);
    assert!(!b.copy_from(&a));
    assert_eq!(b.darts.len(), 1);
}

#[test]
fn change_dim_frees_the_new_links_and_cuts_the_old_ones() {
    let mut map = NGMap::<4, 0, 0>::new(2);
    map.create_chain(2);
    map.change_dim(1);
    assert_eq!(map.get_alpha(&d(2), 1), d(0));
    map.change_dim(3);
    assert!(map.is_free(&d(2), 1));
    assert!(map.is_free(&d(2), 2));
    assert_eq!(map.get_alpha(&d(1), 0), d(2));
}

#[test]
fn weak_links_start_at_the_dart_itself() {
    let mut map = NGMap::<2, 0, 2>::new(2);
    let a = map.create_dart();
    let b = map.create_dart();
    assert_eq!(map.get_link(&a, 0), None);
    map.set_link(&a, b, 1);
    assert_eq!(map.get_link(&a, 1), Some(b));
}

#[test]
fn free_all_leaves_no_dart() {
    let mut map = NGMap::<3, 0, 0>::new(2);
    map.create_ring(2);
    map.free_all();
    assert_eq!(map.darts.len(), 1);
    assert!(map.iter_all().next().is_none());
    assert_eq!(map.dart_index_allocator.count, 1);
    assert_eq!(map.create_dart(), d(1));
    assert!(map.iter_all().next().is_some());
}

#[test]
fn sewing_needs_both_darts_free() {
    let mut m = NGMap::<2, 0, 0>::new(2);
    let (_a, b) = m.create_edge();
    let c = m.create_dart();
    assert!(!m.is_sewable(&c, &b, 0));
    assert!(!m.sew(&c, &b, 0));
}

#[test]
fn a_new_mark_never_takes_a_held_one() {
    let mut m = NGMap::<2, 0, 0>::new(2);
    let x = m.create_dart();
    let a = m.reserve_mark();
    let b = m.reserve_mark();
    m.mark(&x, &b);
    assert!(m.free_mark(a));
    let c = m.reserve_mark();
    assert_ne!(c, b);
    assert_eq!(c, a);
    assert!(m.is_marked(&x, &b));
    assert!(!m.is_marked(&x, &c));
}

#[test]
fn alpha_links_in_use_of_an_edge() {
    let mut m = NGMap::<3, 0, 0>::new(3);
    m.create_edge();
    assert_eq!(m.number_alpha_nonfree(), 1);
}

#[test]
fn contract_leaves_a_vertex_alone() {
    let mut m = NGMap::<3, 0, 0>::new(3);
    m.create_ring(3);
    assert!(!m.is_contractible(&d(1), 0));
    m.contract(&d(1), 0);
    assert_eq!(m.number_cells(0), 3);
}

#[test]
fn sewing_refuses_orbits_of_different_shapes() {
    // along alpha(2) in three dimensions the orbits are alpha(0)-orbits:
    // an edge (two darts) and a lone dart are not isomorphic
    let mut m = NGMap::<3, 0, 0>::new(3);
    let (a, _b) = m.create_edge();
    let c = m.create_dart();
    assert!(!m.is_sewable(&a, &c, 2));
    assert!(!m.sew(&a, &c, 2));
    assert!(m.is_free(&a, 2));
    assert!(m.is_free(&c, 2));
}

#[test]
fn sewing_links_each_dart_to_its_image() {
    let mut m = NGMap::<3, 0, 0>::new(3);
    let (a1, b1) = m.create_edge();
    let (a2, b2) = m.create_edge();
    assert!(m.is_sewable(&a1, &b2, 2));
    assert!(m.sew(&a1, &b2, 2));
    // the isomorphism sends a1 to b2, hence b1 to a2
    assert_eq!(m.get_alpha(&a1, 2), b2);
    assert_eq!(m.get_alpha(&b2, 2), a1);
    assert_eq!(m.get_alpha(&b1, 2), a2);
    assert_eq!(m.get_alpha(&a2, 2), b1);
}

fn links_are_involutions<const N: usize>(m: &NGMap<N, 0, 0>, ndims: usize) -> bool {
    let mut it = m.iter_all();
    while let Some(x) = it.next() {
        for k in 0..ndims {
            if m.get_alpha(&m.get_alpha(&x, k), k) != x {
                return false;
            }
        }
    }
    true
}

#[test]
fn removal_and_contraction_keep_involutions() {
    let mut m = NGMap::<4, 0, 0>::new(3);
    let darts = m.create_ring(6);
    assert!(links_are_involutions(&m, 3));
    assert!(m.remove_cell(&darts[1].1, 0));
    assert!(links_are_involutions(&m, 3));
    m.contract(&darts[3].1, 1);
    assert!(links_are_involutions(&m, 3));
    assert_eq!(m.number_cells(1), 4);
}

#[test]
fn one_dart_per_cell() {
    let mut m = NGMap::<3, 0, 0>::new(3);
    m.create_ring(4);
    m.create_edge();
    assert_eq!(m.iter_dart_per_cell(0).items.len(), 6);
    assert_eq!(m.iter_dart_per_component().items.len(), 2);
}

#[test]
fn sewing_refuses_orbits_linked_differently() {
    // along alpha(0) in four dimensions the orbits run along alpha(2) and
    // alpha(3): two darts joined by alpha(2) and two joined by alpha(3)
    // have orbits of the same size but of different shapes
    let mut m = NGMap::<4, 0, 0>::new(4);
    let a = m.create_dart();
    let b = m.create_dart();
    let c = m.create_dart();
    let e = m.create_dart();
    assert!(m.sew(&a, &b, 2));
    assert!(m.sew(&c, &e, 3));
    assert!(!m.is_sewable(&a, &c, 0));
    let f = m.create_dart();
    let g = m.create_dart();
    assert!(m.sew(&f, &g, 2));
    assert!(m.is_sewable(&a, &f, 0));
    assert!(m.sew(&a, &f, 0));
    assert_eq!(m.get_alpha(&b, 0), g);
    assert_eq!(m.get_alpha(&g, 0), b);
}

#[test]
fn removal_leaves_the_marks_as_they_were() {
    let mut m = NGMap::<3, 0, 0>::new(3);
    let darts = m.create_ring(6);
    assert!(m.remove_cell(&darts[1].1, 0));
    // no mark is left held: the next one takes the first id
    assert_eq!(m.reserve_mark(), MarkIndex(0));
}

#[test]
fn inserting_nothing_at_the_top_dimension() {
    let mut m = NGMap::<2, 0, 0>::new(2);
    let (a, b) = m.create_edge();
    assert!(m.is_insertable(&a, &b, 1, &Vec::new()));
    assert!(m.insert(&a, &b, 1, &Vec::new()));
}

#[test]
fn allocator_hands_out_freed_indices_first_and_never_one_in_use() {
    let mut al = IndexAllocator::new(1);
    let x = al.reserve_index();
    let y = al.reserve_index();
    let z = al.reserve_index();
    assert_eq!((x, y, z), (1, 2, 3));
    assert!(al.free_index(y));
    assert_eq!(al.reserve_index(), 2);
    assert_eq!(al.reserve_index(), 4);
    assert!(al.free_index(x));
    assert!(al.free_index(z));
    let p = al.reserve_index();
    let q = al.reserve_index();
    assert!(p != q && (p == 1 || p == 3) && (q == 1 || q == 3));
    assert_eq!(al.reserve_index(), 5);
}

#[test]
fn a_new_dart_in_a_new_slot_is_unmarked() {
    let mut m = NGMap::<2, 0, 0>::new(2);
    let a = m.create_dart();
    let mk = m.reserve_mark();
    m.mark(&a, &mk);
    let b = m.create_dart();
    assert_eq!(b, DartIndex(2));
    assert!(m.is_marked(&a, &mk));
    assert!(!m.is_marked(&b, &mk));
}

#[test]
fn cells_are_symmetric() {
    let mut m = NGMap::<3, 0, 0>::new(3);
    let r = m.create_ring(5);
    assert!(m.darts_in_same_cell(&r[0].0, &r[2].1, 2));
    assert!(m.darts_in_same_cell(&r[2].1, &r[0].0, 2));
    assert!(m.darts_connected(&r[1].0, &r[4].1));
    assert!(m.darts_connected(&r[4].1, &r[1].0));
}

#[test]
fn vertex_pizza_keeps_involutions() {
    let mut m = NGMap::<4, 0, 0>::new(3);
    let ring = m.create_vertex_pizza(4);
    assert_eq!(ring.len(), 4);
    let mut it = m.iter_all();
    let mut count = 0;
    while it.next().is_some() {
        count += 1;
    }
    assert_eq!(count, 24);
    assert!(links_are_involutions(&m, 3));
}

#[test]
fn reallocation_keeps_the_cells() {
    let mut m = NGMap::<3, 0, 0>::new(3);
    m.create_ring(5);
    let m2 = m.reallocate::<5, 1, 1>();
    assert_eq!(m2.number_cells(0), 5);
    assert_eq!(m2.number_cells(1), 5);
    assert_eq!(m2.number_cells(2), 1);
}

#[test]
fn copying_adds_an_isomorphic_copy() {
    let mut m = NGMap::<3, 0, 0>::new(3);
    let (a, b) = m.create_edge();
    let mut o = NGMap::<3, 0, 0>::new(3);
    o.create_ring(3);
    assert!(m.copy_from(&o));
    // the copies are the next darts, 3 to 8, standing for 1 to 6
    for x in 1..7usize {
        for k in 0..3usize {
            assert_eq!(m.get_alpha(&DartIndex(x + 2), k), DartIndex(o.get_alpha(&DartIndex(x), k).0 + 2));
        }
    }
    assert_eq!(m.get_alpha(&a, 0), b);
    assert_eq!(m.get_alpha(&b, 0), a);
}

#[test]
fn chamfering_keeps_involutions() {
    let mut m = NGMap::<4, 0, 0>::new(3);
    m.create_ring(4);
    assert!(links_are_involutions(&m, 3));
    m.chamfer(&DartIndex(1), 0, 2);
    assert!(links_are_involutions(&m, 3));
    let mut it = m.iter_all();
    let mut count = 0;
    while it.next().is_some() {
        count += 1;
    }
    // the vertex has two darts, each gets one new dart per layer 1 and 2
    assert_eq!(count, 8 + 4);
}
