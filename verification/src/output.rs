//! A map seen as a graph: one node per vertex (0-cell) and one edge per
//! 1-cell that joins two different vertices, for visualization.

use vstd::prelude::*;
use crate::index::DartIndex;
use crate::gmap::NGMap;
use crate::gmap::copy::as_darts;
use crate::iterators::{ids, to_ints};
use crate::orbits::seq_without;
use crate::dart::vec_repeat;

verus! {

/// The least element of `s`.
pub open spec fn set_min(s: Set<int>) -> int {
    choose|v: int| s.contains(v) && forall|w: int| s.contains(w) ==> v <= w
}

/// An element of `s` below or equal to all of `s` is its least element.
pub proof fn lemma_set_min(s: Set<int>, v: int)
    requires
        s.contains(v),
        forall|w: int| s.contains(w) ==> v <= w,
    ensures
        set_min(s) == v,
{
    let m = set_min(s);
    assert(s.contains(m) && forall|w: int| s.contains(w) ==> m <= w);
    assert(m <= v && v <= m);
}

impl<const N: usize, const NA: usize, const NL: usize> NGMap<N, NA, NL> {
    /// One dart per vertex, in the order of the darts in use.
    pub open spec fn vertex_reps(&self) -> Seq<DartIndex> {
        as_darts(self.reps(self.all_darts(), seq_without(0, N as int)))
    }

    /// One dart per edge, in the order of the darts in use.
    pub open spec fn edge_reps(&self) -> Seq<DartIndex> {
        as_darts(self.reps(self.all_darts(), seq_without(1, N as int)))
    }

    /// The node of dart `d`: the position of the last vertex
    /// representative whose vertex holds `d`, or -1.
    pub open spec fn node_of(&self, d: int) -> int {
        self.last_cell(self.vertex_reps(), 0, d, self.vertex_reps().len() as int)
    }

    /// Node `t` is the node of some dart.
    pub open spec fn node_present(&self, t: int) -> bool {
        exists|d: int| 0 <= d < self.len() && #[trigger] self.node_of(d) == t
    }

    /// The present nodes below `m`, in increasing order.
    pub open spec fn present_nodes(&self, m: int) -> Seq<int>
        decreases m,
    {
        if m <= 0 {
            Seq::empty()
        } else if self.node_present(m - 1) {
            self.present_nodes(m - 1).push(m - 1)
        } else {
            self.present_nodes(m - 1)
        }
    }

    /// The nodes of the darts of the edge of the `e`-th edge
    /// representative.
    pub open spec fn edge_nodes(&self, e: int) -> Set<int> {
        Set::new(|v: int| exists|d: int| self.cell(self.edge_reps()[e].0 as int, 1).contains(d) && #[trigger] self.node_of(d) == v)
    }

    /// The two least nodes of the `e`-th edge, if it has two.
    pub open spec fn edge_ends(&self, e: int) -> Option<(int, int)> {
        let s = self.edge_nodes(e);
        let a = set_min(s);
        if exists|v: int| s.contains(v) && v != a {
            Some((a, set_min(s.remove(a))))
        } else {
            None
        }
    }

    /// The pairs of end nodes of the first `m` edges that join two nodes.
    pub open spec fn graph_edges(&self, m: int) -> Seq<(int, int)>
        decreases m,
    {
        if m <= 0 {
            Seq::empty()
        } else {
            match self.edge_ends(m - 1) {
                Some(p) => self.graph_edges(m - 1).push(p),
                None => self.graph_edges(m - 1),
            }
        }
    }

    /// Every dart of every edge has a node.
    pub open spec fn edges_have_nodes(&self) -> bool {
        forall|e: int, d: int| 0 <= e < self.edge_reps().len() && #[trigger] self.cell(self.edge_reps()[e].0 as int, 1).contains(d)
            ==> self.node_of(d) >= 0
    }
}


/// The node of each dart of `map` (`usize::MAX` for none).
fn node_table<const N: usize, const NA: usize, const NL: usize>(map: &NGMap<N, NA, NL>) -> (tab: Vec<usize>)
    requires
        map.wf(),
        0 < N,
    ensures
        tab@.len() == map.len(),
        forall|x: int| 0 <= x < map.len() ==> #[trigger] tab@[x] == (if map.node_of(x) < 0 { usize::MAX as int } else { map.node_of(x) }),
        forall|x: int| 0 <= x < map.len() ==> map.node_of(x) < map.vertex_reps().len(),
{
    let it = map.iter_dart_per_cell(0);
    let reps = it.items;
    let ghost vr = map.vertex_reps();
    proof {
        crate::gmap::copy::lemma_as_darts(reps@, map.reps(map.all_darts(), seq_without(0, N as int)));
        assert forall|t: int| 0 <= t < reps@.len() implies (#[trigger] reps@[t]).0 < map.len() by {
            assert(it.items@[t] == reps@[t]);
        }
    }
    let mut tab: Vec<usize> = vec_repeat(usize::MAX, map.darts.len());
    let mut t: usize = 0;
    while t < reps.len()
        invariant
            map.wf(),
            0 < N,
            reps@ == vr,
            vr == map.vertex_reps(),
            forall|k: int| 0 <= k < reps@.len() ==> (#[trigger] reps@[k]).0 < map.len(),
            t <= reps@.len(),
            tab@.len() == map.len(),
            forall|x: int| 0 <= x < map.len() ==> #[trigger] tab@[x] == (
                if map.last_cell(vr, 0, x, t as int) < 0 { usize::MAX as int } else { map.last_cell(vr, 0, x, t as int) }),
        decreases reps@.len() - t,
    {
        let cell = map.iter_darts_in_cell(reps[t], 0).items;
        proof {
            map.lemma_orbit_ids(reps@[t as int].0 as int, seq_without(0, N as int), cell@);
        }
        let ghost before = tab@;
        let mut i: usize = 0;
        while i < cell.len()
            invariant
                map.wf(),
                reps@ == vr,
                t < reps@.len(),
                ids(cell@) == map.cell(vr[t as int].0 as int, 0),
                forall|k: int| 0 <= k < cell@.len() ==> (#[trigger] cell@[k]).0 < map.len(),
                i <= cell@.len(),
                tab@.len() == map.len(),
                forall|x: int| 0 <= x < map.len() ==> #[trigger] tab@[x] == (if ids(cell@.take(i as int)).contains(x) { t as int } else { before[x] as int }),
            decreases cell@.len() - i,
        {
            let d = cell[i];
            tab.set(d.0, t);
            proof {
                assert forall|x: int| 0 <= x < map.len() implies #[trigger] tab@[x] == (if ids(cell@.take(i + 1)).contains(x) { t as int } else { before[x] as int }) by {
                    if ids(cell@.take(i + 1)).contains(x) {
                        let k = choose|k: int| 0 <= k < i + 1 && #[trigger] cell@.take(i + 1)[k].0 == x;
                        if k < i {
                            assert(cell@.take(i as int)[k].0 == x);
                        }
                    }
                    if ids(cell@.take(i as int)).contains(x) {
                        let k = choose|k: int| 0 <= k < i && #[trigger] cell@.take(i as int)[k].0 == x;
                        assert(cell@.take(i + 1)[k].0 == x);
                    }
                    if x == d.0 {
                        assert(cell@.take(i + 1)[i as int].0 == x);
                    }
                }
            }
            i = i + 1;
        }
        proof {
            assert(cell@.take(cell@.len() as int) =~= cell@);
            assert forall|x: int| 0 <= x < map.len() implies #[trigger] tab@[x] == (
                if map.last_cell(vr, 0, x, t + 1) < 0 { usize::MAX as int } else { map.last_cell(vr, 0, x, t + 1) }) by {
                assert(before[x] == (if map.last_cell(vr, 0, x, t as int) < 0 { usize::MAX as int } else { map.last_cell(vr, 0, x, t as int) }));
            }
        }
        t = t + 1;
    }
    proof {
        assert forall|x: int| 0 <= x < map.len() implies map.node_of(x) < map.vertex_reps().len() by {
            lemma_last_cell_below(map, vr, x, vr.len() as int);
        }
    }
    tab
}

/// `last_cell` finds a position below `m`.
proof fn lemma_last_cell_below<const N: usize, const NA: usize, const NL: usize>(map: &NGMap<N, NA, NL>, reps: Seq<DartIndex>, x: int, m: int)
    requires
        m >= 0,
    ensures
        -1 <= map.last_cell(reps, 0, x, m) < m,
        map.last_cell(reps, 0, x, m) >= 0 ==> map.cell(reps[map.last_cell(reps, 0, x, m)].0 as int, 0).contains(x),
    decreases m,
{
    if m > 0 {
        lemma_last_cell_below(map, reps, x, m - 1);
    }
}

/// The graph of `map` for visualization: its present nodes in increasing
/// order (a node per vertex, numbered in the order of the vertices), and,
/// for each edge whose darts lie in two different vertices or more, in the
/// order of the edges, its two least nodes.
pub fn list_nodes_and_edges<const N: usize, const NA: usize, const NL: usize>(map: &NGMap<N, NA, NL>) -> (r: (Vec<i32>, Vec<[i32; 2]>))
    requires
        map.wf(),
        2 <= N,
        map.len() <= i32::MAX,
        map.edges_have_nodes(),
    ensures
        r.0@.len() == map.present_nodes(map.vertex_reps().len() as int).len(),
        forall|i: int| 0 <= i < r.0@.len() ==> #[trigger] r.0@[i] == map.present_nodes(map.vertex_reps().len() as int)[i],
        r.1@.len() == map.graph_edges(map.edge_reps().len() as int).len(),
        forall|i: int| 0 <= i < r.1@.len() ==> (#[trigger] r.1@[i])@ == seq![
            map.graph_edges(map.edge_reps().len() as int)[i].0 as i32,
            map.graph_edges(map.edge_reps().len() as int)[i].1 as i32,
        ],
{
    let tab = node_table(map);
    let it0 = map.iter_dart_per_cell(0);
    let reps0 = it0.items;
    let nv = reps0.len();
    let len = map.darts.len();
    proof {
        crate::gmap::copy::lemma_as_darts(reps0@, map.reps(map.all_darts(), seq_without(0, N as int)));
        assert(reps0@ == map.vertex_reps());
        lemma_reps_bound(map, seq_without(0, N as int));
    }
    let mut present: Vec<bool> = vec_repeat(false, nv);
    let mut d: usize = 0;
    while d < len
        invariant
            map.wf(),
            len == map.len(),
            nv == map.vertex_reps().len(),
            d <= len,
            tab@.len() == len,
            forall|x: int| 0 <= x < map.len() ==> #[trigger] tab@[x] == (if map.node_of(x) < 0 { usize::MAX as int } else { map.node_of(x) }),
            forall|x: int| 0 <= x < map.len() ==> map.node_of(x) < map.vertex_reps().len(),
            present@.len() == nv,
            forall|t: int| 0 <= t < nv ==> #[trigger] present@[t] == exists|x: int| 0 <= x < d && #[trigger] map.node_of(x) == t,
        decreases len - d,
    {
        let v = tab[d];
        if v != usize::MAX {
            proof {
                assert(map.node_of(d as int) < nv);
            }
            present.set(v, true);
        }
        proof {
            assert forall|t: int| 0 <= t < nv implies #[trigger] present@[t] == exists|x: int| 0 <= x < d + 1 && #[trigger] map.node_of(x) == t by {
                if exists|x: int| 0 <= x < d + 1 && #[trigger] map.node_of(x) == t {
                    let x = choose|x: int| 0 <= x < d + 1 && #[trigger] map.node_of(x) == t;
                    if x < d {
                        assert(exists|x2: int| 0 <= x2 < d && #[trigger] map.node_of(x2) == t);
                    }
                }
                if v != usize::MAX && t == v {
                    assert(map.node_of(d as int) == t);
                }
            }
        }
        d = d + 1;
    }
    let mut nodes: Vec<i32> = Vec::new();
    let mut t: usize = 0;
    while t < nv
        invariant
            map.wf(),
            nv == map.vertex_reps().len(),
            nv <= i32::MAX,
            t <= nv,
            present@.len() == nv,
            forall|k: int| 0 <= k < nv ==> #[trigger] present@[k] == map.node_present(k),
            nodes@.len() == map.present_nodes(t as int).len(),
            forall|i: int| 0 <= i < nodes@.len() ==> #[trigger] nodes@[i] == map.present_nodes(t as int)[i],
            forall|i: int| 0 <= i < map.present_nodes(t as int).len() ==> #[trigger] map.present_nodes(t as int)[i] < t,
        decreases nv - t,
    {
        if present[t] {
            nodes.push(t as i32);
        }
        t = t + 1;
    }
    let it1 = map.iter_dart_per_cell(1);
    let reps1 = it1.items;
    let ne = reps1.len();
    proof {
        crate::gmap::copy::lemma_as_darts(reps1@, map.reps(map.all_darts(), seq_without(1, N as int)));
        assert(reps1@ == map.edge_reps());
        assert forall|k: int| 0 <= k < reps1@.len() implies (#[trigger] reps1@[k]).0 < map.len() by {
            assert(it1.items@[k] == reps1@[k]);
        }
    }
    let mut edges: Vec<[i32; 2]> = Vec::new();
    let mut e: usize = 0;
    while e < ne
        invariant
            map.wf(),
            2 <= N,
            nv == map.vertex_reps().len(),
            nv <= i32::MAX,
            map.edges_have_nodes(),
            reps1@ == map.edge_reps(),
            ne == reps1@.len(),
            forall|k: int| 0 <= k < reps1@.len() ==> (#[trigger] reps1@[k]).0 < map.len(),
            tab@.len() == map.len(),
            forall|x: int| 0 <= x < map.len() ==> #[trigger] tab@[x] == (if map.node_of(x) < 0 { usize::MAX as int } else { map.node_of(x) }),
            forall|x: int| 0 <= x < map.len() ==> map.node_of(x) < map.vertex_reps().len(),
            e <= ne,
            edges@.len() == map.graph_edges(e as int).len(),
            forall|i: int| 0 <= i < edges@.len() ==> (#[trigger] edges@[i])@ == seq![
                map.graph_edges(e as int)[i].0 as i32,
                map.graph_edges(e as int)[i].1 as i32,
            ],
        decreases ne - e,
    {
        let cell = map.iter_darts_in_cell(reps1[e], 1).items;
        let ghost es = map.edge_nodes(e as int);
        proof {
            map.lemma_orbit_ids(reps1@[e as int].0 as int, seq_without(1, N as int), cell@);
            assert(cell@[0].0 == reps1@[e as int].0);
            assert forall|k: int| 0 <= k < cell@.len() implies #[trigger] es.contains(tab@[cell@[k].0 as int] as int) && tab@[cell@[k].0 as int] < nv by {
                let x = cell@[k].0 as int;
                assert(ids(cell@).contains(x));
                assert(map.cell(map.edge_reps()[e as int].0 as int, 1).contains(x));
                assert(map.node_of(x) >= 0);
            }
            assert forall|k: int| 0 <= k < cell@.len() implies #[trigger] tab@[cell@[k].0 as int] < nv by {
                assert(es.contains(tab@[cell@[k].0 as int] as int) && tab@[cell@[k].0 as int] < nv);
            }
        }
        let mut m1 = tab[cell[0].0];
        let mut i: usize = 1;
        while i < cell.len()
            invariant
                0 < i <= cell@.len(),
                tab@.len() == map.len(),
                forall|k: int| 0 <= k < cell@.len() ==> (#[trigger] cell@[k]).0 < map.len(),
                forall|k: int| 0 <= k < i ==> m1 <= #[trigger] tab@[cell@[k].0 as int],
                exists|k: int| 0 <= k < i && m1 == #[trigger] tab@[cell@[k].0 as int],
            decreases cell@.len() - i,
        {
            let v = tab[cell[i].0];
            if v < m1 {
                m1 = v;
            }
            i = i + 1;
        }
        let mut m2: usize = usize::MAX;
        let mut i: usize = 0;
        while i < cell.len()
            invariant
                i <= cell@.len(),
                tab@.len() == map.len(),
                forall|k: int| 0 <= k < cell@.len() ==> (#[trigger] cell@[k]).0 < map.len(),
                forall|k: int| 0 <= k < cell@.len() ==> #[trigger] tab@[cell@[k].0 as int] < nv,
                nv <= i32::MAX,
                forall|k: int| 0 <= k < i && tab@[cell@[k].0 as int] > m1 ==> m2 <= #[trigger] tab@[cell@[k].0 as int],
                m2 == usize::MAX || exists|k: int| 0 <= k < i && m2 == #[trigger] tab@[cell@[k].0 as int] && m2 > m1,
                m2 == usize::MAX ==> forall|k: int| 0 <= k < i ==> #[trigger] tab@[cell@[k].0 as int] <= m1,
            decreases cell@.len() - i,
        {
            let v = tab[cell[i].0];
            if v > m1 && v < m2 {
                m2 = v;
            }
            i = i + 1;
        }
        proof {
            let k0 = choose|k: int| 0 <= k < cell@.len() && m1 == #[trigger] tab@[cell@[k].0 as int];
            assert(es.contains(m1 as int));
            assert forall|w: int| es.contains(w) implies m1 <= w by {
                let x = choose|x: int| map.cell(map.edge_reps()[e as int].0 as int, 1).contains(x) && #[trigger] map.node_of(x) == w;
                let k = choose|k: int| 0 <= k < cell@.len() && #[trigger] cell@[k].0 == x;
                assert(tab@[cell@[k].0 as int] == w);
            }
            lemma_set_min(es, m1 as int);
            if m2 == usize::MAX {
                assert forall|v: int| es.contains(v) implies v == m1 by {
                    let x = choose|x: int| map.cell(map.edge_reps()[e as int].0 as int, 1).contains(x) && #[trigger] map.node_of(x) == v;
                    let k = choose|k: int| 0 <= k < cell@.len() && #[trigger] cell@[k].0 == x;
                    assert(tab@[cell@[k].0 as int] == v);
                }
                assert(map.edge_ends(e as int) is None);
            } else {
                let k2 = choose|k: int| 0 <= k < cell@.len() && m2 == #[trigger] tab@[cell@[k].0 as int] && m2 > m1;
                assert(es.remove(m1 as int).contains(m2 as int));
                assert forall|w: int| es.remove(m1 as int).contains(w) implies m2 <= w by {
                    let x = choose|x: int| map.cell(map.edge_reps()[e as int].0 as int, 1).contains(x) && #[trigger] map.node_of(x) == w;
                    let k = choose|k: int| 0 <= k < cell@.len() && #[trigger] cell@[k].0 == x;
                    assert(tab@[cell@[k].0 as int] == w);
                }
                lemma_set_min(es.remove(m1 as int), m2 as int);
                assert(map.edge_ends(e as int) == Some((m1 as int, m2 as int)));
            }
        }
        if m2 != usize::MAX {
            edges.push([m1 as i32, m2 as i32]);
        }
        proof {
            assert forall|i: int| 0 <= i < edges@.len() implies (#[trigger] edges@[i])@ == seq![
                map.graph_edges(e + 1)[i].0 as i32,
                map.graph_edges(e + 1)[i].1 as i32,
            ] by {
                if i == edges@.len() - 1 && m2 != usize::MAX {
                    assert(edges@[i]@ =~= seq![m1 as i32, m2 as i32]);
                }
            }
        }
        e = e + 1;
    }
    (nodes, edges)
}

/// There are no more representatives than darts.
proof fn lemma_reps_bound<const N: usize, const NA: usize, const NL: usize>(map: &NGMap<N, NA, NL>, iseq: Seq<usize>)
    requires
        map.wf(),
    ensures
        map.reps(map.all_darts(), iseq).len() <= map.len(),
{
    map.lemma_reps_same(map, map.all_darts(), iseq);
    map.lemma_init_darts_below(map.len());
    let all = map.all_darts();
    let ds = as_darts(all);
    assert forall|i: int, j: int| 0 <= i < j < ds.len() implies ds[i] != ds[j] by {
        assert(all[i] < all[j]);
    }
    assert forall|i: int| 0 <= i < ds.len() implies 0 <= (#[trigger] ds[i]).0 < map.len() by {
        assert(1 <= all[i] < map.len());
    }
    crate::iterators::lemma_distinct_bound(ds, Seq::<DartIndex>::empty(), map.len());
}

} // verus!
