use generalized_map::gmap::NGMap;
use generalized_map::index::DartIndex;

fn d(i: usize) -> DartIndex {
    DartIndex(i)
}

#[test]
fn edge_links_two_new_darts_along_alpha0() {
    let mut map = NGMap::<3, 0, 0>::new(2);
    let (a, b) = map.create_edge();
    assert_eq!((a, b), (d(1), d(2)));
    assert_eq!(map.get_alpha(&a, 0), b);
    assert_eq!(map.get_alpha(&b, 0), a);
    assert!(map.is_free(&a, 1));
    assert!(map.is_free(&b, 1));
}

#[test]
fn vertex_links_two_new_darts_along_alpha1() {
    let mut map = NGMap::<3, 0, 0>::new(3);
    let (a, b) = map.create_vertex();
    assert_eq!(map.get_alpha(&a, 1), b);
    assert_eq!(map.get_alpha(&b, 1), a);
    assert!(map.is_free(&a, 0));
    assert!(map.is_free(&a, 2));
}

#[test]
fn linked_pair_reuses_a_freed_index() {
    let mut map = NGMap::<2, 0, 0>::new(2);
    let x = map.create_dart();
    let y = map.create_dart();
    assert_eq!((x, y), (d(1), d(2)));
    assert!(map.remove_isolated_dart(x));
    let (a, b) = map.create_linked_pair(1);
    assert_eq!((a, b), (d(1), d(3)));
    assert_eq!(map.get_alpha(&a, 1), b);
    assert!(map.is_free(&y, 1));
}

#[test]
fn dart_linked_to_dart_zero_above_the_dimension_is_isolated() {
    let mut map = NGMap::<3, 0, 0>::new(2);
    let x = map.create_dart();
    assert!(map.is_free(&x, 0));
    assert!(!map.is_free(&x, 2));
    assert!(map.remove_isolated_dart(x));
    assert!(map.iter_all().next().is_none());
}
#[test]
fn chain_joins_edges_along_alpha1() {
    let mut map = NGMap::<4, 0, 0>::new(2);
    let edges = map.create_chain(3);
    assert_eq!(edges, vec![(d(1), d(2)), (d(3), d(4)), (d(5), d(6))]);
    assert_eq!(map.get_alpha(&d(1), 0), d(2));
    assert_eq!(map.get_alpha(&d(2), 1), d(3));
    assert_eq!(map.get_alpha(&d(3), 1), d(2));
    assert_eq!(map.get_alpha(&d(4), 1), d(5));
    assert!(map.is_free(&d(1), 1));
    assert!(map.is_free(&d(6), 1));
    assert_eq!(map.number_connected_components(), 1);
}

#[test]
fn ring_closes_the_chain_of_vertices() {
    let mut map = NGMap::<4, 0, 0>::new(3);
    let vs = map.create_ring(4);
    assert_eq!(vs.len(), 4);
    assert_eq!(map.get_alpha(&d(1), 1), d(2));
    assert_eq!(map.get_alpha(&d(2), 0), d(3));
    assert_eq!(map.get_alpha(&d(8), 0), d(1));
    assert_eq!(map.get_alpha(&d(1), 0), d(8));
    assert!(map.is_free(&d(1), 2));
    assert_eq!(map.number_cells(0), 4);
    assert_eq!(map.number_cells(1), 4);
    assert_eq!(map.number_cells(2), 1);
}

#[test]
fn ring_of_one_vertex_is_a_loop() {
    let mut map = NGMap::<3, 0, 0>::new(2);
    let vs = map.create_ring(1);
    assert_eq!(vs, vec![(d(1), d(2))]);
    assert_eq!(map.get_alpha(&d(1), 1), d(2));
    assert_eq!(map.get_alpha(&d(2), 0), d(1));
}

#[test]
fn star_without_ends_joins_vertices_along_alpha2() {
    let mut map = NGMap::<4, 0, 0>::new(3);
    let core = map.create_star(3, false);
    assert_eq!(core, vec![(d(1), d(2)), (d(3), d(4)), (d(5), d(6))]);
    assert_eq!(map.get_alpha(&d(2), 2), d(3));
    assert_eq!(map.get_alpha(&d(6), 2), d(1));
    assert_eq!(map.get_alpha(&d(1), 2), d(6));
    assert!(map.is_free(&d(1), 0));
}

#[test]
fn star_with_ends_attaches_an_end_to_each_ray() {
    let mut map = NGMap::<4, 0, 0>::new(3);
    let ends = map.create_star(3, true);
    assert_eq!(ends, vec![(d(7), d(8)), (d(9), d(10)), (d(11), d(12))]);
    assert_eq!(map.get_alpha(&d(7), 2), d(8));
    assert_eq!(map.get_alpha(&d(1), 0), d(8));
    assert_eq!(map.get_alpha(&d(8), 0), d(1));
    assert_eq!(map.get_alpha(&d(6), 0), d(7));
    assert_eq!(map.get_alpha(&d(7), 0), d(6));
    assert_eq!(map.get_alpha(&d(3), 0), d(10));
    assert_eq!(map.get_alpha(&d(2), 0), d(9));
    assert!(map.is_free(&d(7), 1));
}

#[test]
fn star_of_no_ray_is_empty() {
    let mut map = NGMap::<4, 0, 0>::new(3);
    assert!(map.create_star(0, true).is_empty());
    assert_eq!(map.darts.len(), 1);
}
