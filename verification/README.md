# generalized_map

Generalized maps (G-maps) for combinatorial topology: darts linked by alpha
involutions describe n-dimensional cellular subdivisions (vertices, edges,
faces, volumes, ...). The library builds and transforms such maps (sew,
unsew, remove, contract, insert, extrude, chamfer, close the boundary, copy),
traverses orbits and cells, keeps marks and attribute indices, and counts
cells and components. It is written in Verus, and every function states its
behaviour in `requires` / `ensures` contracts that Verus proves.

Layout:

- `src/index.rs`, `src/index_allocator.rs`: typed indices and the allocator
  that hands out and takes back slot indices.
- `src/dart.rs`, `src/orbits.rs`, `src/iterators.rs`, `src/inspect.rs`:
  darts, the index sequences that select orbits, traversals and a dart
  inspector.
- `src/attribute.rs`: typed attribute containers with merge and split.
- `src/gmap/`: the map itself, one file per group of operations; `shapes.rs`
  builds linked pairs, edges, vertices, chains, rings and stars, `iso.rs`
  decides whether two orbits are isomorphic (the test that sewing needs),
  `relink.rs` shows that cutting a cell out keeps the alpha links
  involutions, and `chamfer_laws.rs` does the same for chamfering.
- `src/output.rs`: the graph of vertices and edges of a map.
- `app/`: typed attribute storage beside a map (type-erased containers),
  shapes with attributes, JSON export and the demonstration program.
- `tests/`: tests of the library on concrete maps.
