use generalized_map::gmap::NGMap;
use generalized_map::index::{DartIndex, AttributeIndex};
use generalized_map::orbits::{get_seq, get_seq_sewing};
use generalized_map::inspect::DartInspector;
use generalized_map::output::list_nodes_and_edges;

fn d(i: usize) -> DartIndex {
    DartIndex(i)
}

#[test]
fn orbit_index_sequences() {
    assert_eq!(get_seq(1, 3), vec![0, 2]);
    assert_eq!(get_seq(0, 1), Vec::<usize>::new());
    assert_eq!(get_seq_sewing(1, 4), vec![3]);
    assert_eq!(get_seq_sewing(0, 4), vec![2, 3]);
    assert_eq!(get_seq_sewing(2, 5), vec![0, 4]);
}

#[test]
fn sew_links_free_darts_and_unsew_frees_them() {
    let mut map = NGMap::<3, 0, 0>::new(2);
    let a = map.create_dart();
    let b = map.create_dart();
    assert!(map.is_sewable(&a, &b, 0));
    assert!(!map.is_sewable(&a, &a, 0));
    assert!(map.sew(&a, &b, 0));
    assert_eq!(map.get_alpha(&a, 0), b);
    assert_eq!(map.get_alpha(&b, 0), a);
    assert!(!map.sew(&a, &b, 0));
    assert!(map.darts_connected(&a, &b));
    map.unsew(&a, &b, 0);
    assert!(map.is_free(&a, 0));
    assert!(map.is_free(&b, 0));
    assert!(!map.darts_connected(&a, &b));
}

#[test]
fn sewing_two_rings_glues_faces() {
    let mut map = NGMap::<3, 0, 0>::new(3);
    let r1 = map.create_ring(4);
    let r2 = map.create_ring(4);
    assert_eq!(map.number_connected_components(), 2);
    assert!(map.sew(&r1[0].0, &r2[0].0, 2));
    assert_eq!(map.number_connected_components(), 1);
    // along alpha(2) in three dimensions the sewing glues the alpha(0)-orbits: one edge
    assert_eq!(map.get_alpha(&d(1), 2), d(9));
    assert_eq!(map.get_alpha(&d(9), 2), d(1));
    assert_eq!(map.get_alpha(&d(8), 2), d(16));
    assert_eq!(map.get_alpha(&d(16), 2), d(8));
    assert!(map.is_free(&r1[0].1, 2));
}

#[test]
fn stats_of_a_ring() {
    let mut map = NGMap::<4, 0, 0>::new(3);
    map.create_ring(5);
    assert_eq!(map.number_cells(0), 5);
    assert_eq!(map.number_cells(1), 5);
    assert_eq!(map.number_cells(2), 1);
    assert_eq!(map.number_dimensions_non_free(), (2, 0, 0));
    assert_eq!(map.number_alpha_nonfree(), 3);
    // alpha(0) and alpha(1) link darts; alpha(3), above the dimension, leads to dart 0
    assert_eq!(map.number_alpha_nonfree_component(&d(1)), 3);
    assert_eq!(map.number_connected_components(), 1);
    assert!(map.darts_in_same_cell(&d(1), &d(2), 0));
    assert!(!map.darts_in_same_cell(&d(2), &d(4), 0));
}

#[test]
fn cells_and_traversals() {
    let mut map = NGMap::<4, 0, 0>::new(3);
    map.create_ring(3);
    let face: Vec<DartIndex> = map.iter_darts_in_cell(d(1), 2).items;
    assert_eq!(face.len(), 6);
    let reps = map.iter_dart_per_cell(0).items;
    assert_eq!(reps, vec![d(1), d(3), d(5)]);
    let mut all = map.iter_all();
    let mut count = 0;
    while all.next().is_some() {
        count += 1;
    }
    assert_eq!(count, 6);
    let mut it = map.iter_darts_in_cell(d(1), 0);
    assert_eq!(it.next(), Some(d(1)));
    assert_eq!(it.next(), Some(d(2)));
    assert_eq!(it.next(), None);
}

#[test]
fn inspector_walks_along_links() {
    let mut map = NGMap::<4, 0, 0>::new(3);
    map.create_ring(4);
    let i = DartInspector::new(d(1), &map);
    let j = i.alpha(0).unwrap();
    assert_eq!(*j.peek(), d(8));
    let k = j.alpha(1).unwrap();
    assert_eq!(k.release(), d(7));
    assert!(DartInspector::new(d(1), &map).alpha(2).is_none());
}

#[test]
fn marks_on_cells() {
    let mut map = NGMap::<4, 0, 0>::new(3);
    map.create_ring(3);
    let m = map.reserve_mark();
    assert!(map.mark_cell(&d(1), &m, 2));
    for k in 1..7 {
        assert!(map.is_marked(&d(k), &m));
    }
    assert!(map.unmark(&d(6), &m));
    assert!(!map.is_marked(&d(6), &m));
    assert!(map.unmark_cell(&d(1), &m, 0));
    assert!(!map.is_marked(&d(2), &m));
    assert!(map.is_marked(&d(3), &m));
    assert!(map.free_mark(m));
    assert!(!map.free_mark(m));
}

#[test]
fn remove_a_vertex_of_a_ring() {
    let mut map = NGMap::<3, 0, 0>::new(3);
    let darts = map.create_ring(6);
    let d0 = darts[0].1;
    let d1 = darts[1].1;
    assert_eq!(map.iter_darts_in_cell(d0, 2).items.len(), 12);
    assert!(map.is_removable(&d1, 0));
    assert!(map.remove_cell(&d1, 0));
    assert_eq!(map.iter_darts_in_cell(d0, 2).items.len(), 10);
    assert_eq!(map.number_cells(0), 5);
}

#[test]
fn contract_an_edge_of_a_ring() {
    let mut map = NGMap::<3, 0, 0>::new(3);
    map.create_ring(4);
    map.contract(&d(2), 1);
    assert_eq!(map.iter_darts_in_cell(d(1), 2).items.len(), 6);
    assert_eq!(map.number_cells(1), 3);
}

#[test]
fn extrude_two_chains() {
    let mut map = NGMap::<4, 0, 0>::new(2);
    let vec1 = map.create_chain(3);
    let vec2 = map.create_chain(3);
    assert!(map.extrude(&vec1[0].0, &vec1[1].0, 1).is_none());
    let map1 = map.extrude(&vec1[0].0, &vec2[0].0, 1).unwrap();
    assert_eq!(map1.get_ndims(), 3);
    assert_eq!(map1.darts.len(), 6 * 6 * 2 + 1);
    assert_eq!(map.darts.len(), 13);
    assert_eq!(map1.number_connected_components(), 1);
}

#[test]
fn copy_a_map_into_another() {
    let mut a = NGMap::<3, 0, 0>::new(2);
    a.create_ring(3);
    let mut b = NGMap::<3, 0, 0>::new(2);
    assert!(b.copy_from(&a));
    assert_eq!(b.darts.len(), 7);
    assert_eq!(b.number_cells(0), 3);
    assert_eq!(b.number_cells(1), 3);
}

#[test]
fn close_the_boundary_of_an_edge() {
    let mut map = NGMap::<3, 0, 0>::new(2);
    map.create_edge();
    map.close_boundary(1);
    assert_eq!(map.darts.len(), 5);
    assert_eq!(map.get_alpha(&d(1), 1), d(3));
    assert_eq!(map.get_alpha(&d(3), 1), d(1));
    assert_eq!(map.get_alpha(&d(2), 1), d(4));
}

#[test]
fn chamfer_a_vertex_adds_darts() {
    let mut map = NGMap::<4, 0, 0>::new(3);
    map.create_ring(4);
    map.chamfer(&d(1), 0, 2);
    assert_eq!(map.darts.len(), 9 + 4);
}

#[test]
fn reallocate_and_change_dimension() {
    let mut map = NGMap::<4, 0, 0>::new(3);
    map.create_ring(3);
    let mut big = map.reallocate::<6, 1, 1>();
    assert_eq!(big.get_ndims(), 3);
    assert_eq!(big.get_alpha(&d(2), 0), d(3));
    big.change_dim(2);
    assert_eq!(big.get_ndims(), 2);
    big.change_dim(5);
    assert_eq!(big.get_ndims(), 5);
    assert!(big.is_free(&d(1), 4));
}

#[test]
fn attribute_indices_per_cell() {
    let mut map = NGMap::<3, 1, 0>::new(2);
    assert!(map.reserve_attribute_container(0));
    assert!(map.has_attribute_container(0));
    assert!(!map.has_attribute_container(1));
    assert!(!map.reserve_attribute_container(1));
    let (a, b) = map.create_edge();
    let ia = map.get_attribute_index(&a, 0);
    let ib = map.get_attribute_index(&b, 0);
    assert!(ia != ib);
    assert!(ia != AttributeIndex::null());
    map.free_attribute_container(0);
    assert!(!map.has_attribute_container(0));
}

#[test]
fn nodes_and_edges_of_a_ring() {
    let mut map = NGMap::<3, 0, 0>::new(2);
    map.create_ring(3);
    let (nodes, edges) = list_nodes_and_edges(&map);
    assert_eq!(nodes, vec![0, 1, 2]);
    assert_eq!(edges, vec![[0, 2], [0, 1], [1, 2]]);
}

#[test]
fn nodes_and_edges_of_an_edge() {
    let mut map = NGMap::<3, 0, 0>::new(2);
    map.create_edge();
    let (nodes, edges) = list_nodes_and_edges(&map);
    assert_eq!(nodes, vec![0, 1]);
    assert_eq!(edges, vec![[0, 1]]);
}
