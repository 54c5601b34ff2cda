//! Closure: every dart left alpha(i)-free gets a new partner dart, and the
//! new darts are linked to each other along the boundary they close.

use vstd::prelude::*;
use crate::index::DartIndex;
use crate::orbits::{seq_sewing, get_seq_sewing};
use crate::iterators::to_ints;
use super::NGMap;

verus! {

impl<const N: usize, const NA: usize, const NL: usize> NGMap<N, NA, NL> {
    /// This map is `old` with one dart `r` created by `create_dart`.
    pub open spec fn created_one(&self, old: &Self, r: int) -> bool {
        let (idx, count, nodes) = old.dart_index_allocator.spec_reserve();
        &&& self.wf()
        &&& r == idx
        &&& 1 <= idx <= old.len()
        &&& self.len() == (if idx < old.len() { old.len() } else { old.len() + 1 })
        &&& self.dart_index_allocator.count == count
        &&& self.dart_index_allocator.nodes@ == nodes
        &&& self.darts@[r].init
        &&& forall|k: int| 0 <= k < N ==> #[trigger] self.alpha(r, k) == (if k < old.ndims { r } else { 0 })
        &&& self.darts@[r].links@ == crate::dart::repeat(DartIndex(r as usize), NL as nat)
        &&& forall|s: int| 0 <= s < NA ==> #[trigger] self.attr(r, s) == old.create_attr(s, 0)
        &&& forall|d: int| 0 <= d < old.len() && d != r ==> #[trigger] self.darts@[d] == old.darts@[d]
        &&& self.ndims == old.ndims
        &&& self.marks@ == old.marks@
        &&& self.attribute_container_indices@ == old.attribute_container_indices@
        &&& self.attribute_actions@ == old.attribute_actions@
        &&& self.attribute_index_allocators@.len() == NA
        &&& forall|s: int| 0 <= s < NA ==> (#[trigger] self.attribute_index_allocators@[s] is Some) == old.slot_live(s)
        &&& forall|s: int| 0 <= s < NA ==> #[trigger] self.slot_count(s) == old.slot_count(s)
            + (if old.slot_live(s) { old.idims_in_slot(s, old.ndims as int) as int } else { 0 })
    }

    /// alpha(`idim`) of `x` while closing at `dart` with the new dart `d1`
    /// (`self` is the map once `d1` is created), after the first `m`
    /// sewing links: first `dart` and `d1` are linked to each other; then,
    /// for each sewing link `j` with `dart` not alpha(j)-free and its
    /// alpha(j) neighbour `d2` not alpha(`idim`)-free, `d1` and `d2` are
    /// linked to each other.
    pub open spec fn close_alpha(&self, dart: int, d1: int, idim: int, x: int, m: int) -> int
        decreases m,
    {
        if m <= 0 {
            if x == d1 {
                dart
            } else if x == dart {
                d1
            } else {
                self.alpha(x, idim)
            }
        } else {
            let j = seq_sewing(idim, self.ndims as int)[m - 1] as int;
            let d2 = self.alpha(dart, j);
            let prev = self.close_alpha(dart, d1, idim, x, m - 1);
            if d2 != dart && self.close_alpha(dart, d1, idim, d2, m - 1) != d2 {
                if x == d2 {
                    d1
                } else if x == d1 {
                    d2
                } else {
                    prev
                }
            } else {
                prev
            }
        }
    }

    /// alpha(`idim`) of `x` once all sewing links are done.
    pub open spec fn close_alpha_all(&self, dart: int, d1: int, idim: int, x: int) -> int {
        self.close_alpha(dart, d1, idim, x, seq_sewing(idim, self.ndims as int).len() as int)
    }

    /// The walk along the closed boundary: from `d`, alpha(`idim`) (as
    /// closed) then alpha(idim - 1), `n` times.
    pub open spec fn close_walk(&self, dart: int, d1: int, idim: int, d: int, n: nat) -> int
        decreases n,
    {
        if n == 0 {
            d
        } else {
            let prev = self.close_walk(dart, d1, idim, d, (n - 1) as nat);
            self.alpha(self.close_alpha_all(dart, d1, idim, prev), idim - 1)
        }
    }

    /// The walk goes on from `d`: `d` is not alpha(`idim`)-free (as
    /// closed) and its alpha(`idim`) neighbour is not alpha(idim - 1)-free.
    pub open spec fn close_walk_goes_on(&self, dart: int, d1: int, idim: int, d: int) -> bool {
        let c = self.close_alpha_all(dart, d1, idim, d);
        c != d && self.alpha(c, idim - 1) != c
    }

    /// The walk from alpha(idim - 1) of `dart` stops after `n` steps.
    pub open spec fn close_walk_stops(&self, dart: int, d1: int, idim: int, n: nat) -> bool {
        let start = self.alpha(dart, idim - 1);
        &&& !self.close_walk_goes_on(dart, d1, idim, self.close_walk(dart, d1, idim, start, n))
        &&& forall|m: nat| m < n ==> self.close_walk_goes_on(dart, d1, idim, #[trigger] self.close_walk(dart, d1, idim, start, m))
    }

    /// This map is `a` (`d1` just created) after closing at `dart`: its
    /// alpha(`idim`) links as `close_alpha_all` says; if `idim > 0` and the
    /// walk from alpha(idim - 1) of `dart` stops within `a.len()` steps at
    /// a dart that is not alpha(`idim`)-free, `d1` and that dart's
    /// alpha(`idim`) neighbour are linked to each other along
    /// alpha(idim - 1); everything else as in `a`.
    pub open spec fn closed_from(&self, a: &Self, dart: int, d1: int, idim: int) -> bool {
        let stops = idim > 0 && exists|n: nat| n <= a.len() && #[trigger] a.close_walk_stops(dart, d1, idim, n);
        let end = a.close_walk(dart, d1, idim, a.alpha(dart, idim - 1), choose|n: nat| n <= a.len() && #[trigger] a.close_walk_stops(dart, d1, idim, n));
        let da = a.close_alpha_all(dart, d1, idim, end);
        let link = stops && da != end;
        &&& self.wf()
        &&& self.len() == a.len()
        &&& self.same_books(a)
        &&& forall|e: int| 0 <= e < a.len() ==> {
            &&& (#[trigger] self.darts@[e]).init == a.darts@[e].init
            &&& self.darts@[e].attributes@ == a.darts@[e].attributes@
            &&& self.darts@[e].links@ == a.darts@[e].links@
        }
        &&& forall|x: int, k: int| 0 <= x < a.len() && 0 <= k < N ==> #[trigger] self.alpha(x, k) == (
            if k == idim {
                a.close_alpha_all(dart, d1, idim, x)
            } else if link && k == idim - 1 && x == da {
                d1
            } else if link && k == idim - 1 && x == d1 {
                da
            } else {
                a.alpha(x, k)
            })
    }

    /// This map is `old` after closing at `dart`: a new dart is created and
    /// the closure applied (see `closed_from`).
    pub open spec fn closed_at(&self, old: &Self, dart: int, idim: int) -> bool {
        exists|a: Self, d1: int| #[trigger] a.created_one(old, d1) && self.closed_from(&a, dart, d1, idim)
    }

    /// The darts in use below `n` that are alpha(`idim`)-free, in
    /// increasing order.
    pub open spec fn boundary_darts(&self, idim: int, n: int) -> Seq<int>
        decreases n,
    {
        if n <= 1 {
            Seq::empty()
        } else if self.is_init(n - 1) && self.free(n - 1, idim) {
            self.boundary_darts(idim, n - 1).push(n - 1)
        } else {
            self.boundary_darts(idim, n - 1)
        }
    }

    /// Closes the boundary at `dart` (see `closed_at`).
    fn close_at(&mut self, dart: DartIndex, idim: usize, seq: &Vec<usize>)
        requires
            old(self).wf(),
            dart.0 < old(self).len(),
            idim < old(self).ndims,
            seq@ == seq_sewing(idim as int, old(self).ndims as int),
            old(self).len() + 1 < usize::MAX,
            old(self).attribute_room(N as int),
        ensures
            final(self).closed_at(old(self), dart.0 as int, idim as int),
    {
        let ghost o = *old(self);
        let d1 = self.create_dart();
        let ghost a = *self;
        proof {
            assert(a.created_one(&o, d1.0 as int));
            assert forall|jj: int| 0 <= jj < seq@.len() implies #[trigger] seq@[jj] < N && seq@[jj] != idim by {}
        }
        self.set_dart_alpha(dart.0, idim, d1);
        self.set_dart_alpha(d1.0, idim, dart);
        proof {
            assert forall|x: int| 0 <= x < a.len() implies #[trigger] self.alpha(x, idim as int) == a.close_alpha(dart.0 as int, d1.0 as int, idim as int, x, 0) by {}
        }
        let mut j: usize = 0;
        while j < seq.len()
            invariant
                self.wf(),
                a.wf(),
                dart.0 < a.len(),
                d1.0 < a.len(),
                idim < a.ndims,
                a.ndims <= N,
                seq@ == seq_sewing(idim as int, a.ndims as int),
                forall|jj: int| 0 <= jj < seq@.len() ==> #[trigger] seq@[jj] < N && seq@[jj] != idim,
                j <= seq@.len(),
                self.len() == a.len(),
                self.same_books(&a),
                forall|e: int| 0 <= e < a.len() ==> {
                    &&& (#[trigger] self.darts@[e]).init == a.darts@[e].init
                    &&& self.darts@[e].attributes@ == a.darts@[e].attributes@
                    &&& self.darts@[e].links@ == a.darts@[e].links@
                },
                forall|x: int, k: int| 0 <= x < a.len() && 0 <= k < N ==> #[trigger] self.alpha(x, k) == (
                    if k == idim { a.close_alpha(dart.0 as int, d1.0 as int, idim as int, x, j as int) } else { a.alpha(x, k) }),
            decreases seq@.len() - j,
        {
            let d2 = self.get_alpha(&dart, seq[j]);
            proof {
                assert(a.alpha(dart.0 as int, seq@[j as int] as int) < a.len());
            }
            let ghost before = *self;
            if d2.0 != dart.0 && !self.is_free(&d2, idim) {
                self.set_dart_alpha(d1.0, idim, d2);
                self.set_dart_alpha(d2.0, idim, d1);
            }
            proof {
                assert forall|e: int| 0 <= e < a.len() implies {
                    &&& (#[trigger] self.darts@[e]).init == a.darts@[e].init
                    &&& self.darts@[e].attributes@ == a.darts@[e].attributes@
                    &&& self.darts@[e].links@ == a.darts@[e].links@
                } by {
                    assert(before.darts@[e].init == a.darts@[e].init);
                }
                assert forall|x: int, k: int| 0 <= x < a.len() && 0 <= k < N implies #[trigger] self.alpha(x, k) == (
                    if k == idim { a.close_alpha(dart.0 as int, d1.0 as int, idim as int, x, j + 1) } else { a.alpha(x, k) }) by {
                    assert(before.alpha(x, k) == (
                        if k == idim { a.close_alpha(dart.0 as int, d1.0 as int, idim as int, x, j as int) } else { a.alpha(x, k) }));
                    assert(before.alpha(d2.0 as int, idim as int) == a.close_alpha(dart.0 as int, d1.0 as int, idim as int, d2.0 as int, j as int));
                }
            }
            j = j + 1;
        }
        let ghost c = *self;
        if idim > 0 {
            let mut d2 = self.get_alpha(&dart, idim - 1);
            let len = self.darts.len();
            let ghost start = d2.0 as int;
            let mut steps: usize = 0;
            proof {
                assert(a.alpha(dart.0 as int, idim - 1) < a.len());
            }
            loop
                invariant
                    *self == c,
                    c.wf(),
                    a.wf(),
                    idim > 0,
                    idim < a.ndims,
                    a.ndims <= N,
                    len == a.len(),
                    c.len() == a.len(),
                    steps <= len,
                    d2.0 < a.len(),
                    start == a.alpha(dart.0 as int, idim - 1),
                    d2.0 == a.close_walk(dart.0 as int, d1.0 as int, idim as int, start, steps as nat),
                    forall|m: nat| m < steps ==> a.close_walk_goes_on(dart.0 as int, d1.0 as int, idim as int, #[trigger] a.close_walk(dart.0 as int, d1.0 as int, idim as int, start, m)),
                    forall|x: int, k: int| 0 <= x < a.len() && 0 <= k < N ==> #[trigger] c.alpha(x, k) == (
                        if k == idim { a.close_alpha_all(dart.0 as int, d1.0 as int, idim as int, x) } else { a.alpha(x, k) }),
                ensures
                    d2.0 < a.len(),
                    d2.0 == a.close_walk(dart.0 as int, d1.0 as int, idim as int, start, steps as nat),
                    steps <= len,
                    forall|m: nat| m < steps ==> a.close_walk_goes_on(dart.0 as int, d1.0 as int, idim as int, #[trigger] a.close_walk(dart.0 as int, d1.0 as int, idim as int, start, m)),
                    a.close_walk_goes_on(dart.0 as int, d1.0 as int, idim as int, d2.0 as int) ==> steps == len,
                decreases len - steps,
            {
                let e = self.get_alpha(&d2, idim);
                let f = self.get_alpha(&e, idim - 1);
                proof {
                    assert(c.alpha(d2.0 as int, idim as int) == a.close_alpha_all(dart.0 as int, d1.0 as int, idim as int, d2.0 as int));
                    assert(c.alpha(e.0 as int, idim - 1) == a.alpha(e.0 as int, idim - 1));
                }
                if e.0 == d2.0 || f.0 == e.0 {
                    break;
                }
                if steps == len {
                    break;
                }
                d2 = f;
                steps = steps + 1;
            }
            let e = self.get_alpha(&d2, idim);
            let f = self.get_alpha(&e, idim - 1);
            proof {
                assert(c.alpha(d2.0 as int, idim as int) == a.close_alpha_all(dart.0 as int, d1.0 as int, idim as int, d2.0 as int));
                assert(c.alpha(e.0 as int, idim - 1) == a.alpha(e.0 as int, idim - 1));
            }
            let stopped = !(e.0 != d2.0 && f.0 != e.0);
            let ghost end = d2.0 as int;
            proof {
                if stopped {
                    assert(a.close_walk_stops(dart.0 as int, d1.0 as int, idim as int, steps as nat));
                    let n = choose|n: nat| n <= a.len() && #[trigger] a.close_walk_stops(dart.0 as int, d1.0 as int, idim as int, n);
                    if n < steps {
                        assert(a.close_walk_goes_on(dart.0 as int, d1.0 as int, idim as int, a.close_walk(dart.0 as int, d1.0 as int, idim as int, start, n)));
                    } else if n > steps {
                        assert(a.close_walk_goes_on(dart.0 as int, d1.0 as int, idim as int, a.close_walk(dart.0 as int, d1.0 as int, idim as int, start, steps as nat)));
                    }
                    assert(a.close_walk(dart.0 as int, d1.0 as int, idim as int, a.alpha(dart.0 as int, idim - 1), n) == end);
                } else {
                    assert forall|n: nat| n <= a.len() implies !#[trigger] a.close_walk_stops(dart.0 as int, d1.0 as int, idim as int, n) by {
                        if n < steps {
                            assert(a.close_walk_goes_on(dart.0 as int, d1.0 as int, idim as int, a.close_walk(dart.0 as int, d1.0 as int, idim as int, start, n)));
                        }
                    }
                }
            }
            if stopped && e.0 != d2.0 {
                self.set_dart_alpha(d1.0, idim - 1, e);
                self.set_dart_alpha(e.0, idim - 1, d1);
            }
            proof {
                assert forall|e2: int| 0 <= e2 < a.len() implies {
                    &&& (#[trigger] self.darts@[e2]).init == a.darts@[e2].init
                    &&& self.darts@[e2].attributes@ == a.darts@[e2].attributes@
                    &&& self.darts@[e2].links@ == a.darts@[e2].links@
                } by {
                    assert(c.darts@[e2].init == a.darts@[e2].init);
                }
                assert(self.closed_from(&a, dart.0 as int, d1.0 as int, idim as int));
            }
        } else {
            proof {
                assert(self.closed_from(&a, dart.0 as int, d1.0 as int, idim as int));
            }
        }
        proof {
            assert(self.closed_at(&o, dart.0 as int, idim as int));
        }
    }

    /// This map is `old` with its boundary along alpha(`idim`) closed: the
    /// darts of `old.boundary_darts` closed one after the other (see
    /// `closed_at`), through the maps `states`.
    pub open spec fn boundary_closed(&self, old: &Self, idim: int) -> bool {
        exists|states: Seq<Self>| #[trigger] states.len() == old.boundary_darts(idim, old.len()).len() + 1 && {
            let bd = old.boundary_darts(idim, old.len());
            &&& states[0] == *old
            &&& states.last() == *self
            &&& forall|t: int| 0 <= t < bd.len() ==> #[trigger] states[t + 1].closed_at(&states[t], bd[t], idim)
        }
    }

    /// Closes the boundary along alpha(`idim`): each dart in use that is
    /// alpha(`idim`)-free, in increasing order, gets a new partner dart
    /// (see `closed_at`).
    pub fn close_boundary(&mut self, idim: usize)
        requires
            old(self).wf(),
            idim < old(self).ndims,
            old(self).len() * 2 + 1 < usize::MAX,
            old(self).attribute_room(N * old(self).len()),
        ensures
            final(self).wf(),
            final(self).boundary_closed(old(self), idim as int),
    {
        let ghost o = *old(self);
        let seq = get_seq_sewing(idim, self.ndims);
        let len = self.darts.len();
        let mut bd: Vec<DartIndex> = Vec::new();
        let mut d: usize = 1;
        while d < len
            invariant
                *self == o,
                o.wf(),
                len == o.len(),
                1 <= d <= len,
                idim < o.ndims,
                to_ints(bd@) == o.boundary_darts(idim as int, d as int),
                bd@.len() <= d - 1,
                forall|i: int| 0 <= i < bd@.len() ==> (#[trigger] bd@[i]).0 < d,
            decreases len - d,
        {
            if self.darts[d].is_init() && self.is_free(&DartIndex(d), idim) {
                bd.push(DartIndex(d));
            }
            proof {
                assert(to_ints(bd@) =~= o.boundary_darts(idim as int, d + 1));
            }
            d = d + 1;
        }
        let ghost bds = o.boundary_darts(idim as int, o.len());
        let ghost mut states: Seq<Self> = seq![o];
        let mut t: usize = 0;
        while t < bd.len()
            invariant
                self.wf(),
                o.wf(),
                len == o.len(),
                idim < o.ndims,
                self.ndims == o.ndims,
                seq@ == seq_sewing(idim as int, o.ndims as int),
                to_ints(bd@) == bds,
                bds == o.boundary_darts(idim as int, o.len()),
                bd@.len() <= len - 1,
                forall|i: int| 0 <= i < bd@.len() ==> (#[trigger] bd@[i]).0 < len,
                o.len() * 2 + 1 < usize::MAX,
                o.attribute_room(N * o.len()),
                t <= bd@.len(),
                o.len() <= self.len() <= o.len() + t,
                forall|s: int| 0 <= s < NA ==> #[trigger] self.slot_live(s) == o.slot_live(s),
                forall|s: int| 0 <= s < NA ==> #[trigger] self.slot_count(s) <= o.slot_count(s) + N * t,
                states.len() == t + 1,
                states[0] == o,
                states.last() == *self,
                forall|u: int| 0 <= u < t ==> #[trigger] states[u + 1].closed_at(&states[u], bds[u], idim as int),
            decreases bd@.len() - t,
        {
            let ghost pre = *self;
            proof {
                assert(pre.attribute_room(N as int)) by {
                    assert forall|s: int|
                        #![trigger pre.attribute_index_allocators@[s]]
                        0 <= s < NA && pre.attribute_index_allocators@[s] is Some implies pre.attribute_index_allocators@[s].unwrap().count + N <= usize::MAX by {
                        assert(pre.slot_live(s));
                        assert(o.slot_live(s));
                        assert(pre.slot_count(s) <= o.slot_count(s) + N * t);
                        assert(pre.slot_count(s) == pre.attribute_index_allocators@[s].unwrap().count);
                        assert(o.attribute_index_allocators@[s] is Some);
                        assert(o.attribute_index_allocators@[s].unwrap().count + N * o.len() <= usize::MAX);
                        assert(N * t + N <= N * o.len()) by (nonlinear_arith)
                            requires
                                t + 1 <= o.len(),
                        {
                            assert(N * t + N == N * (t + 1));
                        }
                    }
                }
                assert(to_ints(bd@)[t as int] == bd@[t as int].0);
            }
            self.close_at(bd[t], idim, &seq);
            proof {
                let (a, d1) = choose|a: Self, d1: int| #[trigger] a.created_one(&pre, d1) && self.closed_from(&a, bd@[t as int].0 as int, d1, idim as int);
                assert forall|s: int| 0 <= s < NA implies #[trigger] self.slot_live(s) == o.slot_live(s) && self.slot_count(s) <= o.slot_count(s) + N * (t + 1) by {
                    assert(self.attribute_index_allocators@[s] == a.attribute_index_allocators@[s]);
                    pre.lemma_idims_bound(s, pre.ndims as int);
                    assert(pre.slot_live(s) == o.slot_live(s));
                    assert(pre.slot_count(s) <= o.slot_count(s) + N * t);
                    assert(a.slot_count(s) == pre.slot_count(s) + (if pre.slot_live(s) { pre.idims_in_slot(s, pre.ndims as int) as int } else { 0 }));
                    assert(self.slot_count(s) == a.slot_count(s));
                    assert((a.attribute_index_allocators@[s] is Some) == pre.slot_live(s));
                    assert(N * t + N == N * (t + 1)) by (nonlinear_arith);
                }
                assert forall|s: int| 0 <= s < NA implies #[trigger] self.slot_count(s) <= o.slot_count(s) + N * (t + 1) by {
                    assert(self.slot_live(s) == o.slot_live(s) && self.slot_count(s) <= o.slot_count(s) + N * (t + 1));
                }
                states = states.push(*self);
                assert forall|u: int| 0 <= u < t + 1 implies #[trigger] states[u + 1].closed_at(&states[u], bds[u], idim as int) by {
                    if u == t {
                        assert(states[u] == pre);
                        assert(bds[u] == bd@[t as int].0);
                    }
                }
            }
            t = t + 1;
        }
        proof {
            assert(bds.len() == bd@.len());
            assert(states.len() == bds.len() + 1);
        }
    }
}

} // verus!
