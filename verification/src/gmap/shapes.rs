//! Simple topological building blocks: linked pairs of darts, edges,
//! vertices, chains, rings and stars.

use vstd::prelude::*;
use crate::index::DartIndex;
use crate::orbits::seq_sewing;
use crate::iterators::ids;
use super::NGMap;
use super::copy::reserve_run;
use super::insert::keys_distinct;

verus! {

impl<const N: usize, const NA: usize, const NL: usize> NGMap<N, NA, NL> {
    /// Dart `d` is linked to itself by every alpha link listed in `iseq`.
    pub open spec fn plain_under(&self, d: int, iseq: Seq<usize>) -> bool {
        forall|j: int| 0 <= j < iseq.len() ==> #[trigger] self.alpha(d, iseq[j] as int) == d
    }

    /// Dart `d` is a new, isolated dart: linked to itself below the
    /// dimension and to dart 0 above it.
    pub open spec fn isolated(&self, d: int) -> bool {
        forall|k: int| 0 <= k < N ==> #[trigger] self.alpha(d, k) == (if k < self.ndims { d } else { 0 })
    }

    /// The live attribute slots are those of `old`, and each allocator
    /// handed out at most `c` indices since `old`.
    pub open spec fn room_used(&self, old: &Self, c: int) -> bool {
        &&& self.attribute_index_allocators@.len() == NA
        &&& forall|s: int| 0 <= s < NA ==> (#[trigger] self.attribute_index_allocators@[s] is Some) == (old.attribute_index_allocators@[s] is Some)
        &&& forall|s: int| 0 <= s < NA ==> #[trigger] self.slot_count(s) <= old.slot_count(s) + c
    }

    /// The map did not shrink since `old`, and its dimension, marks and
    /// attribute containers are those of `old`.
    pub open spec fn grown_from(&self, old: &Self) -> bool {
        &&& self.len() >= old.len()
        &&& self.ndims == old.ndims
        &&& self.marks@ == old.marks@
        &&& self.attribute_container_indices@ == old.attribute_container_indices@
    }

    /// An orbit under links that all leave `d` in place is `d` alone.
    pub proof fn lemma_plain_orbit(&self, d: int, iseq: Seq<usize>, r: Seq<DartIndex>)
        requires
            self.is_orbit(d, iseq, r),
            self.plain_under(d, iseq),
        ensures
            r.len() == 1,
            r[0].0 == d,
    {
        let s = Set::<int>::empty().insert(d);
        assert(self.closed_under(s, iseq)) by {
            assert forall|x: int, j: int| s.contains(x) && 0 <= j < iseq.len() implies {
                let y = #[trigger] self.alpha(x, iseq[j] as int);
                y == x || y == 0 || s.contains(y)
            } by {
                assert(x == d);
            }
        }
        assert(ids(r).subset_of(s));
        if r.len() > 1 {
            assert(ids(r).contains(r[1].0 as int));
            assert(r[1].0 == r[0].0);
            assert(r[1] == r[0]);
        }
    }

    /// `d` and `q` form a two-dart orbit under `iseq`: the link `iseq[j0]`
    /// exchanges them and every other link in `iseq` leaves both in place.
    pub open spec fn swapped_by(&self, d: int, q: int, iseq: Seq<usize>, j0: int) -> bool {
        &&& 0 <= j0 < iseq.len()
        &&& forall|j: int| 0 <= j < iseq.len() ==> #[trigger] self.alpha(d, iseq[j] as int) == (if iseq[j] == iseq[j0] { q } else { d })
        &&& forall|j: int| 0 <= j < iseq.len() ==> #[trigger] self.alpha(q, iseq[j] as int) == (if iseq[j] == iseq[j0] { d } else { q })
    }

    /// The orbit of `d` under `iseq` is `d`, then `q`, when one link of
    /// `iseq` exchanges them and the others leave both in place.
    pub proof fn lemma_swapped_orbit(&self, d: int, q: int, iseq: Seq<usize>, j0: int, r: Seq<DartIndex>)
        requires
            self.is_orbit(d, iseq, r),
            self.swapped_by(d, q, iseq, j0),
            d != q,
            q != 0,
        ensures
            r.len() == 2,
            r[0].0 == d,
            r[1].0 == q,
    {
        let s = Set::<int>::empty().insert(d).insert(q);
        assert(self.closed_under(s, iseq)) by {
            assert forall|x: int, j: int| s.contains(x) && 0 <= j < iseq.len() implies {
                let y = #[trigger] self.alpha(x, iseq[j] as int);
                y == x || y == 0 || s.contains(y)
            } by {
                if x == d {
                    assert(self.alpha(d, iseq[j] as int) == (if iseq[j] == iseq[j0] { q } else { d }));
                } else {
                    assert(self.alpha(q, iseq[j] as int) == (if iseq[j] == iseq[j0] { d } else { q }));
                }
            }
        }
        assert(ids(r).subset_of(s));
        assert(ids(r).contains(d)) by {
            assert(r[0].0 == d);
        }
        assert(self.alpha(d, iseq[j0] as int) == q);
        assert(ids(r).contains(q));
        let i = choose|i: int| 0 <= i < r.len() && (#[trigger] r[i]).0 == q;
        assert(i != 0);
        if r.len() > 2 {
            assert(ids(r).contains(r[1].0 as int));
            assert(ids(r).contains(r[2].0 as int));
            assert(r[1] != r[0] && r[2] != r[0] && r[1] != r[2]);
            assert(r[1].0 == q);
            assert(r[2].0 == q);
        }
        assert(ids(r).contains(r[1].0 as int));
        assert(r[1] != r[0]);
    }

    /// Two darts other than dart 0 that every link in `iseq` leaves in
    /// place have one-dart orbits, and sending the one to the other is an
    /// isomorphism of those orbits.
    pub proof fn lemma_plain_iso(&self, d1: int, d2: int, iseq: Seq<usize>)
        requires
            d1 != 0,
            d2 != 0,
            self.plain_under(d1, iseq),
            self.plain_under(d2, iseq),
        ensures
            self.orbit_set(d1, iseq) == Set::<int>::empty().insert(d1),
            self.orbit_iso(d1, d2, iseq, Map::<int, int>::empty().insert(d1, d2)),
    {
        self.lemma_plain_orbit_set(d1, iseq);
        self.lemma_plain_orbit_set(d2, iseq);
        let f = Map::<int, int>::empty().insert(d1, d2);
        assert(f.dom() =~= self.orbit_set(d1, iseq));
        assert forall|x: int, j: int| #![trigger f[x], iseq[j]] f.contains_key(x) && 0 <= j < iseq.len() implies self.link_agrees(x, f[x], iseq[j] as int, f) by {
            assert(self.alpha(d1, iseq[j] as int) == d1);
            assert(self.alpha(d2, iseq[j] as int) == d2);
        }
        assert forall|y: int| #[trigger] self.orbit_set(d2, iseq).contains(y) <==> exists|x: int| f.contains_key(x) && #[trigger] f[x] == y by {
            if y == d2 {
                assert(f.contains_key(d1) && f[d1] == y);
            }
        }
    }

    /// The orbit of a dart that every link in `iseq` leaves in place is that
    /// dart alone.
    pub proof fn lemma_plain_orbit_set(&self, d: int, iseq: Seq<usize>)
        requires
            self.plain_under(d, iseq),
        ensures
            self.orbit_set(d, iseq) == Set::<int>::empty().insert(d),
    {
        let s = Set::<int>::empty().insert(d);
        assert(self.closed_under(s, iseq)) by {
            assert forall|x: int, j: int| s.contains(x) && 0 <= j < iseq.len() implies {
                let y = #[trigger] self.alpha(x, iseq[j] as int);
                y == x || y == 0 || s.contains(y)
            } by {
                assert(x == d);
            }
        }
        self.lemma_orbit_set_closed(d, iseq);
        assert(self.orbit_set(d, iseq) =~= s);
    }

    /// Room left after using at most `c` attribute indices per slot.
    pub proof fn lemma_room_left(&self, old: &Self, c: int, k: int)
        requires
            old.attribute_room(c + k),
            self.room_used(old, c),
        ensures
            self.attribute_room(k),
    {
        assert forall|s: int|
            #![trigger self.attribute_index_allocators@[s]]
            0 <= s < NA && self.attribute_index_allocators@[s] is Some implies self.attribute_index_allocators@[s].unwrap().count + k <= usize::MAX by {
            assert(old.attribute_index_allocators@[s] is Some);
            assert(self.slot_count(s) <= old.slot_count(s) + c);
        }
    }

    /// Attribute use adds up along a sequence of operations.
    pub proof fn lemma_room_used_trans(&self, mid: &Self, old: &Self, c1: int, c2: int)
        requires
            mid.room_used(old, c1),
            self.room_used(mid, c2),
        ensures
            self.room_used(old, c1 + c2),
    {
        assert forall|s: int| 0 <= s < NA implies #[trigger] self.slot_count(s) <= old.slot_count(s) + (c1 + c2) by {
            assert(mid.slot_count(s) <= old.slot_count(s) + c1);
            assert(self.slot_count(s) <= mid.slot_count(s) + c2);
        }
    }

    /// Darts of `old` outside `news` keep their state, attributes aside.
    pub open spec fn kept_apart_from(&self, old: &Self, news: Set<int>) -> bool {
        forall|d: int| 0 <= d < old.len() && !news.contains(d) ==> {
            &&& (#[trigger] self.darts@[d]).init == old.darts@[d].init
            &&& self.darts@[d].links@ == old.darts@[d].links@
            &&& forall|k: int| 0 <= k < N ==> #[trigger] self.alpha(d, k) == old.alpha(d, k)
        }
    }

    /// Creates a dart (see `create_dart`), stating what the shapes below
    /// need of it.
    fn create_isolated(&mut self) -> (r: DartIndex)
        requires
            old(self).wf(),
            old(self).len() + 1 < usize::MAX,
            old(self).attribute_room(N as int),
        ensures
            final(self).wf(),
            old(self).free_indices_unused() ==> final(self).free_indices_unused(),
            (seq![r], final(self).dart_index_allocator.count, final(self).dart_index_allocator.nodes@)
                == reserve_run(old(self).dart_index_allocator.count, old(self).dart_index_allocator.nodes@, 1),
            1 <= r.0 < final(self).len(),
            old(self).free_indices_unused() && r.0 < old(self).len() ==> !old(self).darts@[r.0 as int].init,
            final(self).darts@[r.0 as int].init,
            final(self).isolated(r.0 as int),
            final(self).len() <= old(self).len() + 1,
            forall|d: int| 0 <= d < old(self).len() && d != r.0 ==> #[trigger] final(self).darts@[d] == old(self).darts@[d],
            final(self).grown_from(old(self)),
            final(self).room_used(old(self), N as int),
            old(self).free_indices_unused() && old(self).involutive() ==> final(self).involutive(),
    {
        let ghost o = *old(self);
        let r = self.create_dart();
        proof {
            assert(reserve_run(o.dart_index_allocator.count, o.dart_index_allocator.nodes@, 0)
                == (Seq::<DartIndex>::empty(), o.dart_index_allocator.count, o.dart_index_allocator.nodes@));
            assert(seq![r] =~= Seq::<DartIndex>::empty().push(r));
            assert forall|s: int| 0 <= s < NA implies #[trigger] self.slot_count(s) <= o.slot_count(s) + N by {
                o.lemma_idims_bound(s, o.ndims as int);
            }
        }
        r
    }

    /// The orbit of `d` is `d` and `q` when one link of `iseq` exchanges
    /// them and the others leave both in place.
    pub proof fn lemma_swapped_orbit_set(&self, d: int, q: int, iseq: Seq<usize>, j0: int)
        requires
            self.swapped_by(d, q, iseq, j0),
            d != q,
            q != 0,
        ensures
            self.orbit_set(d, iseq) == Set::<int>::empty().insert(d).insert(q),
    {
        let s = Set::<int>::empty().insert(d).insert(q);
        assert(self.closed_under(s, iseq)) by {
            assert forall|x: int, j: int| s.contains(x) && 0 <= j < iseq.len() implies {
                let y = #[trigger] self.alpha(x, iseq[j] as int);
                y == x || y == 0 || s.contains(y)
            } by {
                if x == d {
                    assert(self.alpha(d, iseq[j] as int) == (if iseq[j] == iseq[j0] { q } else { d }));
                } else {
                    assert(self.alpha(q, iseq[j] as int) == (if iseq[j] == iseq[j0] { d } else { q }));
                }
            }
        }
        self.lemma_orbit_set_closed(d, iseq);
        assert(self.alpha(d, iseq[j0] as int) == q);
        assert(self.orbit_set(d, iseq).contains(q));
        assert(self.orbit_set(d, iseq) =~= s);
    }

    /// Two two-dart orbits exchanged by the same link are isomorphic, by
    /// the map that sends `d1` to `d2` and `q1` to `q2`.
    pub proof fn lemma_swapped_iso(&self, d1: int, q1: int, d2: int, q2: int, iseq: Seq<usize>, j0: int)
        requires
            d1 != q1,
            d2 != q2,
            d1 != 0 && q1 != 0 && d2 != 0 && q2 != 0,
            self.swapped_by(d1, q1, iseq, j0),
            self.swapped_by(d2, q2, iseq, j0),
        ensures
            self.orbit_iso(d1, d2, iseq, Map::<int, int>::empty().insert(d1, d2).insert(q1, q2)),
    {
        self.lemma_swapped_orbit_set(d1, q1, iseq, j0);
        self.lemma_swapped_orbit_set(d2, q2, iseq, j0);
        let f = Map::<int, int>::empty().insert(d1, d2).insert(q1, q2);
        assert(f.dom() =~= self.orbit_set(d1, iseq));
        assert forall|x: int, j: int| #![trigger f[x], iseq[j]] f.contains_key(x) && 0 <= j < iseq.len() implies self.link_agrees(x, f[x], iseq[j] as int, f) by {
            assert(self.alpha(d1, iseq[j] as int) == (if iseq[j] == iseq[j0] { q1 } else { d1 }));
            assert(self.alpha(q1, iseq[j] as int) == (if iseq[j] == iseq[j0] { d1 } else { q1 }));
            assert(self.alpha(d2, iseq[j] as int) == (if iseq[j] == iseq[j0] { q2 } else { d2 }));
            assert(self.alpha(q2, iseq[j] as int) == (if iseq[j] == iseq[j0] { d2 } else { q2 }));
        }
        assert forall|y: int| #[trigger] self.orbit_set(d2, iseq).contains(y) <==> exists|x: int| f.contains_key(x) && #[trigger] f[x] == y by {
            if y == d2 {
                assert(f.contains_key(d1) && f[d1] == y);
            }
            if y == q2 {
                assert(f.contains_key(q1) && f[q1] == y);
            }
        }
    }

    /// Linking two pairs of distinct alpha(`alpha`)-free darts in use, each
    /// to its partner, and changing nothing else, keeps the alpha links
    /// involutions.
    proof fn lemma_link_two_pairs_keeps_involutive(o: &Self, f: &Self, d1: int, d2: int, q1: int, q2: int, alpha: int)
        requires
            o.wf(),
            o.involutive(),
            0 <= d1 < o.len() && 0 <= d2 < o.len() && 0 <= q1 < o.len() && 0 <= q2 < o.len(),
            d1 != d2 && d1 != q1 && d1 != q2 && d2 != q1 && d2 != q2 && q1 != q2,
            o.is_init(d1) && o.is_init(d2) && o.is_init(q1) && o.is_init(q2),
            0 <= alpha < o.ndims,
            o.free(d1, alpha) && o.free(d2, alpha) && o.free(q1, alpha) && o.free(q2, alpha),
            f.len() == o.len(),
            f.ndims == o.ndims,
            forall|x: int| 0 <= x < o.len() ==> (#[trigger] f.darts@[x]).init == o.darts@[x].init,
            forall|x: int, k: int| 0 <= x < o.len() && 0 <= k < N && k != alpha ==> #[trigger] f.alpha(x, k) == o.alpha(x, k),
            forall|x: int| 0 <= x < o.len() ==> #[trigger] f.alpha(x, alpha) == (
                if x == d2 { d1 } else if x == d1 { d2 } else if x == q2 { q1 } else if x == q1 { q2 } else { o.alpha(x, alpha) }),
        ensures
            f.involutive(),
    {
        assert forall|d: int, k: int| 0 <= d < f.len() && f.is_init(d) && 0 <= k < f.ndims implies {
            let e = #[trigger] f.alpha(d, k);
            &&& 0 <= e < f.len()
            &&& f.is_init(e)
            &&& f.alpha(e, k) == d
        } by {
            assert(f.darts@[d].init == o.darts@[d].init);
            let e0 = o.alpha(d, k);
            assert(o.is_init(e0) && o.alpha(e0, k) == d && 0 <= e0 < o.len());
            assert(f.darts@[e0].init == o.darts@[e0].init);
            if k == alpha && d != d1 && d != d2 && d != q1 && d != q2 {
                if e0 == d1 { assert(o.alpha(d1, alpha) == d1); }
                if e0 == d2 { assert(o.alpha(d2, alpha) == d2); }
                if e0 == q1 { assert(o.alpha(q1, alpha) == q1); }
                if e0 == q2 { assert(o.alpha(q2, alpha) == q2); }
            }
        }
    }

    /// Sews `d1` and `d2` along alpha(`alpha`) (see `sew`). Where `d1`
    /// and its partner `q1`, `d2` and its partner `q2` are four distinct
    /// darts, each pair exchanged by the same link taking part in the
    /// sewing and left in place by the others, and `d1` is
    /// alpha(`alpha`)-free, the sewing succeeds and links `d1` with `d2`
    /// and `q1` with `q2`.
    fn sew_swapped(&mut self, d1: DartIndex, d2: DartIndex, alpha: usize, Ghost(q1): Ghost<int>, Ghost(q2): Ghost<int>, Ghost(j0): Ghost<int>)
        requires
            old(self).wf(),
            d1.0 < old(self).len(),
            d2.0 < old(self).len(),
            alpha < old(self).ndims,
            old(self).attribute_room(N as int),
        ensures
            final(self).wf(),
            final(self).len() == old(self).len(),
            final(self).grown_from(old(self)),
            final(self).dart_index_allocator == old(self).dart_index_allocator,
            final(self).room_used(old(self), N as int),
            forall|x: int| 0 <= x < old(self).len() ==> (#[trigger] final(self).darts@[x]).init == old(self).darts@[x].init
                && final(self).darts@[x].links@ == old(self).darts@[x].links@,
            forall|x: int, k: int| 0 <= x < old(self).len() && 0 <= k < N && k != alpha ==> #[trigger] final(self).alpha(x, k) == old(self).alpha(x, k),
            old(self).free_indices_unused() ==> final(self).free_indices_unused(),
            ({
                let iseq = seq_sewing(alpha as int, old(self).ndims as int);
                &&& d1.0 != d2.0 && d1.0 != q1 && d1.0 != q2 && d2.0 != q1 && d2.0 != q2 && q1 != q2
                &&& q1 != 0 && q2 != 0 && d1.0 != 0 && d2.0 != 0
                &&& old(self).free(d1.0 as int, alpha as int)
                &&& old(self).free(d2.0 as int, alpha as int)
                &&& old(self).swapped_by(d1.0 as int, q1, iseq, j0)
                &&& old(self).swapped_by(d2.0 as int, q2, iseq, j0)
            }) ==> forall|x: int| 0 <= x < old(self).len() ==> #[trigger] final(self).alpha(x, alpha as int) == (
                if x == d2.0 { d1.0 as int } else if x == d1.0 { d2.0 as int }
                else if x == q2 { q1 } else if x == q1 { q2 } else { old(self).alpha(x, alpha as int) }),
            ({
                let iseq = seq_sewing(alpha as int, old(self).ndims as int);
                &&& d1.0 != d2.0 && d1.0 != q1 && d1.0 != q2 && d2.0 != q1 && d2.0 != q2 && q1 != q2
                &&& q1 != 0 && q2 != 0 && d1.0 != 0 && d2.0 != 0
                &&& old(self).free(d1.0 as int, alpha as int)
                &&& old(self).free(d2.0 as int, alpha as int)
                &&& old(self).free(q1, alpha as int)
                &&& old(self).free(q2, alpha as int)
                &&& old(self).swapped_by(d1.0 as int, q1, iseq, j0)
                &&& old(self).swapped_by(d2.0 as int, q2, iseq, j0)
                &&& 0 <= q1 < old(self).len() && 0 <= q2 < old(self).len()
                &&& old(self).is_init(d1.0 as int) && old(self).is_init(d2.0 as int) && old(self).is_init(q1) && old(self).is_init(q2)
                &&& old(self).involutive()
            }) ==> final(self).involutive(),
    {
        let ghost o = *old(self);
        let ghost iseq = seq_sewing(alpha as int, o.ndims as int);
        let r = self.sew(&d1, &d2, alpha);
        proof {
            if d1.0 != d2.0 && d1.0 != q1 && d1.0 != q2 && d2.0 != q1 && d2.0 != q2 && q1 != q2 && q1 != 0 && q2 != 0 && d1.0 != 0 && d2.0 != 0
                && o.free(d1.0 as int, alpha as int) && o.free(d2.0 as int, alpha as int) && o.swapped_by(d1.0 as int, q1, iseq, j0) && o.swapped_by(d2.0 as int, q2, iseq, j0) {
                o.lemma_swapped_iso(d1.0 as int, q1, d2.0 as int, q2, iseq, j0);
                assert(r);
                let (p1, p2) = choose|p1: Seq<DartIndex>, p2: Seq<DartIndex>| {
                    &&& o.is_orbit(d1.0 as int, iseq, p1)
                    &&& o.is_orbit(d2.0 as int, iseq, p2)
                    &&& p1.len() == p2.len()
                    &&& forall|f: Map<int, int>, k: int| #[trigger] o.orbit_iso(d1.0 as int, d2.0 as int, iseq, f)
                        && 0 <= k < p1.len() ==> f[(#[trigger] p1[k]).0 as int] == p2[k].0
                    &&& forall|x: int| 0 <= x < o.len() ==> #[trigger] self.alpha(x, alpha as int)
                        == o.sew_value(p1, p2, alpha as int, x, p1.len() as int)
                };
                o.lemma_swapped_orbit(d1.0 as int, q1, iseq, j0, p1);
                o.lemma_swapped_orbit(d2.0 as int, q2, iseq, j0, p2);
                assert forall|x: int| 0 <= x < o.len() implies #[trigger] self.alpha(x, alpha as int) == (
                    if x == d2.0 { d1.0 as int } else if x == d1.0 { d2.0 as int }
                    else if x == q2 { q1 } else if x == q1 { q2 } else { o.alpha(x, alpha as int) }) by {
                    assert(o.sew_value(p1, p2, alpha as int, x, 0) == o.alpha(x, alpha as int));
                    assert(o.sew_value(p1, p2, alpha as int, x, 1) == (if x == d2.0 { d1.0 as int } else if x == d1.0 { d2.0 as int } else { o.alpha(x, alpha as int) }));
                }
                if o.free(q1, alpha as int) && o.free(q2, alpha as int) && 0 <= q1 < o.len() && 0 <= q2 < o.len()
                    && o.is_init(d1.0 as int) && o.is_init(d2.0 as int) && o.is_init(q1) && o.is_init(q2) && o.involutive() {
                    Self::lemma_link_two_pairs_keeps_involutive(&o, self, d1.0 as int, d2.0 as int, q1, q2, alpha as int);
                }
            }
            assert forall|s: int| 0 <= s < NA implies #[trigger] self.slot_count(s) <= o.slot_count(s) + N by {}
            if o.free_indices_unused() {
                assert forall|k: int| #[trigger] self.dart_index_allocator.free_set().contains(k) implies !self.darts@[k].init by {
                    assert(o.dart_index_allocator.free_set().contains(k));
                    let j = choose|j: int| 0 <= j < o.dart_index_allocator.nodes@.len() && #[trigger] o.dart_index_allocator.nodes@[j].holds(k);
                    assert(o.dart_index_allocator.nodes@[j].end() <= o.len());
                    assert(self.darts@[k].init == o.darts@[k].init);
                }
            }
        }
    }

    /// Sews `d1` and `d2` along alpha(`alpha`) (see `sew`). Where the darts
    /// are distinct, the first is alpha(`alpha`)-free and the links taking
    /// part in the sewing leave both in place, the sewing succeeds and just
    /// links the two darts to each other.
    fn sew_plain(&mut self, d1: DartIndex, d2: DartIndex, alpha: usize)
        requires
            old(self).wf(),
            d1.0 < old(self).len(),
            d2.0 < old(self).len(),
            alpha < old(self).ndims,
            old(self).attribute_room(N as int),
        ensures
            final(self).wf(),
            final(self).len() == old(self).len(),
            final(self).grown_from(old(self)),
            final(self).dart_index_allocator == old(self).dart_index_allocator,
            final(self).room_used(old(self), N as int),
            forall|x: int| 0 <= x < old(self).len() ==> (#[trigger] final(self).darts@[x]).init == old(self).darts@[x].init
                && final(self).darts@[x].links@ == old(self).darts@[x].links@,
            forall|x: int, k: int| 0 <= x < old(self).len() && 0 <= k < N && k != alpha ==> #[trigger] final(self).alpha(x, k) == old(self).alpha(x, k),
            old(self).free_indices_unused() ==> final(self).free_indices_unused(),
            ({
                &&& d1.0 != d2.0 && d1.0 != 0 && d2.0 != 0
                &&& old(self).free(d1.0 as int, alpha as int)
                &&& old(self).free(d2.0 as int, alpha as int)
                &&& old(self).plain_under(d1.0 as int, seq_sewing(alpha as int, old(self).ndims as int))
                &&& old(self).plain_under(d2.0 as int, seq_sewing(alpha as int, old(self).ndims as int))
            }) ==> forall|x: int| 0 <= x < old(self).len() ==> #[trigger] final(self).alpha(x, alpha as int) == (
                if x == d2.0 { d1.0 as int } else if x == d1.0 { d2.0 as int } else { old(self).alpha(x, alpha as int) }),
            ({
                &&& d1.0 != d2.0 && d1.0 != 0 && d2.0 != 0
                &&& old(self).free(d1.0 as int, alpha as int)
                &&& old(self).free(d2.0 as int, alpha as int)
                &&& old(self).plain_under(d1.0 as int, seq_sewing(alpha as int, old(self).ndims as int))
                &&& old(self).plain_under(d2.0 as int, seq_sewing(alpha as int, old(self).ndims as int))
                &&& old(self).is_init(d1.0 as int)
                &&& old(self).is_init(d2.0 as int)
                &&& old(self).involutive()
            }) ==> final(self).involutive(),
    {
        let ghost o = *old(self);
        let ghost iseq = seq_sewing(alpha as int, o.ndims as int);
        let r = self.sew(&d1, &d2, alpha);
        proof {
            if d1.0 != d2.0 && d1.0 != 0 && d2.0 != 0 && o.free(d1.0 as int, alpha as int) && o.free(d2.0 as int, alpha as int) && o.plain_under(d1.0 as int, iseq) && o.plain_under(d2.0 as int, iseq) {
                o.lemma_plain_iso(d1.0 as int, d2.0 as int, iseq);
                assert(r);
                let (p1, p2) = choose|p1: Seq<DartIndex>, p2: Seq<DartIndex>| {
                    &&& o.is_orbit(d1.0 as int, iseq, p1)
                    &&& o.is_orbit(d2.0 as int, iseq, p2)
                    &&& p1.len() == p2.len()
                    &&& forall|f: Map<int, int>, k: int| #[trigger] o.orbit_iso(d1.0 as int, d2.0 as int, iseq, f)
                        && 0 <= k < p1.len() ==> f[(#[trigger] p1[k]).0 as int] == p2[k].0
                    &&& forall|x: int| 0 <= x < o.len() ==> #[trigger] self.alpha(x, alpha as int)
                        == o.sew_value(p1, p2, alpha as int, x, p1.len() as int)
                };
                o.lemma_plain_orbit(d1.0 as int, iseq, p1);
                o.lemma_plain_orbit(d2.0 as int, iseq, p2);
                assert forall|x: int| 0 <= x < o.len() implies #[trigger] self.alpha(x, alpha as int) == (
                    if x == d2.0 { d1.0 as int } else if x == d1.0 { d2.0 as int } else { o.alpha(x, alpha as int) }) by {
                    assert(o.sew_value(p1, p2, alpha as int, x, 0) == o.alpha(x, alpha as int));
                }
                if o.is_init(d1.0 as int) && o.is_init(d2.0 as int) && o.involutive() {
                    Self::lemma_link_pair_keeps_involutive(&o, self, d1.0 as int, d2.0 as int, alpha as int);
                }
            }
            assert forall|s: int| 0 <= s < NA implies #[trigger] self.slot_count(s) <= o.slot_count(s) + N by {}
            if o.free_indices_unused() {
                assert forall|k: int| #[trigger] self.dart_index_allocator.free_set().contains(k) implies !self.darts@[k].init by {
                    assert(o.dart_index_allocator.free_set().contains(k));
                    let j = choose|j: int| 0 <= j < o.dart_index_allocator.nodes@.len() && #[trigger] o.dart_index_allocator.nodes@[j].holds(k);
                    assert(o.dart_index_allocator.nodes@[j].end() <= o.len());
                    assert(self.darts@[k].init == o.darts@[k].init);
                }
            }
        }
    }
}

impl<const N: usize, const NA: usize, const NL: usize> NGMap<N, NA, NL> {
    /// `a` is a dart created since `old`: in use now, and either a new slot
    /// or a slot that was out of use in `old`.
    pub open spec fn created_since(&self, old: &Self, a: int) -> bool {
        &&& 1 <= a < self.len()
        &&& self.darts@[a].init
        &&& a < old.len() ==> !old.darts@[a].init
    }

    /// `a` and `b` are two distinct darts created since `old`,
    /// alpha(`idim`)-linked to each other and otherwise isolated.
    pub open spec fn linked_pair(&self, old: &Self, a: int, b: int, idim: int) -> bool {
        &&& a != b
        &&& self.created_since(old, a)
        &&& self.created_since(old, b)
        &&& self.alpha(a, idim) == b
        &&& self.alpha(b, idim) == a
        &&& forall|k: int| 0 <= k < N && k != idim ==> #[trigger] self.alpha(a, k) == (if k < self.ndims { a } else { 0 })
        &&& forall|k: int| 0 <= k < N && k != idim ==> #[trigger] self.alpha(b, k) == (if k < self.ndims { b } else { 0 })
    }

    /// Creates two darts, alpha(`idim`)-linked to each other. The darts are
    /// the next two indices that the dart allocator hands out. While the
    /// map's freed indices are out of use (see `free_indices_unused`), the
    /// two darts are distinct, linked to each other and isolated otherwise,
    /// and the other darts keep their links.
    pub fn create_linked_pair(&mut self, idim: usize) -> (r: (DartIndex, DartIndex))
        requires
            old(self).wf(),
            idim < old(self).ndims,
            old(self).len() + 3 < usize::MAX,
            old(self).attribute_room(3 * N),
        ensures
            final(self).wf(),
            (seq![r.0, r.1], final(self).dart_index_allocator.count, final(self).dart_index_allocator.nodes@)
                == reserve_run(old(self).dart_index_allocator.count, old(self).dart_index_allocator.nodes@, 2),
            final(self).len() <= old(self).len() + 2,
            1 <= r.0.0 < final(self).len(),
            1 <= r.1.0 < final(self).len(),
            final(self).grown_from(old(self)),
            final(self).room_used(old(self), 3 * N),
            old(self).free_indices_unused() ==> {
                &&& final(self).free_indices_unused()
                &&& final(self).linked_pair(old(self), r.0.0 as int, r.1.0 as int, idim as int)
                &&& final(self).kept_apart_from(old(self), set![r.0.0 as int, r.1.0 as int])
            },
            old(self).free_indices_unused() && old(self).involutive() ==> final(self).involutive(),
    {
        let ghost o = *old(self);
        let dart1 = self.create_isolated();
        let ghost m1 = *self;
        proof {
            assert(m1.attribute_room(2 * N)) by {
                m1.lemma_room_left(&o, N as int, 2 * N);
            }
        }
        let dart2 = self.create_isolated();
        let ghost m2 = *self;
        proof {
            m2.lemma_room_used_trans(&m1, &o, N as int, N as int);
            assert(m2.attribute_room(N as int)) by {
                m2.lemma_room_left(&o, 2 * N, N as int);
            }
            let (s1, c1, n1) = reserve_run(o.dart_index_allocator.count, o.dart_index_allocator.nodes@, 1);
            assert(reserve_run(o.dart_index_allocator.count, o.dart_index_allocator.nodes@, 2).0 == s1.push(DartIndex(crate::index_allocator::reserve_spec(c1, n1).0)));
            assert(c1 == m1.dart_index_allocator.count && n1 == m1.dart_index_allocator.nodes@);
            let rr = reserve_run(m1.dart_index_allocator.count, m1.dart_index_allocator.nodes@, 1);
            assert(rr.0 == reserve_run(m1.dart_index_allocator.count, m1.dart_index_allocator.nodes@, 0).0.push(
                DartIndex(crate::index_allocator::reserve_spec(c1, n1).0)));
            assert(seq![dart2][0] == rr.0[0]);
            assert(dart2 == DartIndex(crate::index_allocator::reserve_spec(c1, n1).0));
            assert(seq![dart1][0] == s1[0]);
            assert(seq![dart1, dart2] =~= s1.push(dart2));
        }
        self.sew_plain(dart1, dart2, idim);
        proof {
            let fin = *self;
            fin.lemma_room_used_trans(&m2, &o, 2 * N, N as int);
            if o.free_indices_unused() {
                assert(dart1.0 != dart2.0) by {
                    if dart2.0 < m1.len() {
                        assert(!m1.darts@[dart2.0 as int].init);
                    }
                }
                let iseq = seq_sewing(idim as int, o.ndims as int);
                assert(m2.plain_under(dart1.0 as int, iseq)) by {
                    assert(m2.darts@[dart1.0 as int] == m1.darts@[dart1.0 as int]);
                    assert forall|j: int| 0 <= j < iseq.len() implies #[trigger] m2.alpha(dart1.0 as int, iseq[j] as int) == dart1.0 by {
                        assert(m1.alpha(dart1.0 as int, iseq[j] as int) == dart1.0);
                    }
                }
                assert(m2.plain_under(dart2.0 as int, iseq)) by {
                    assert forall|j: int| 0 <= j < iseq.len() implies #[trigger] m2.alpha(dart2.0 as int, iseq[j] as int) == dart2.0 by {}
                }
                assert(m2.darts@[dart1.0 as int] == m1.darts@[dart1.0 as int]);
                assert(m1.alpha(dart1.0 as int, idim as int) == dart1.0);
                assert(m2.free(dart1.0 as int, idim as int));
                assert forall|k: int| 0 <= k < N && k != idim implies #[trigger] fin.alpha(dart1.0 as int, k) == (if k < fin.ndims { dart1.0 as int } else { 0 }) by {
                    assert(m2.alpha(dart1.0 as int, k) == m1.alpha(dart1.0 as int, k));
                }
                assert forall|k: int| 0 <= k < N && k != idim implies #[trigger] fin.alpha(dart2.0 as int, k) == (if k < fin.ndims { dart2.0 as int } else { 0 }) by {}
                if o.involutive() {
                    assert(m2.is_init(dart1.0 as int));
                    assert(m2.is_init(dart2.0 as int));
                    assert(m2.free(dart2.0 as int, idim as int));
                }
                assert(fin.alpha(dart1.0 as int, idim as int) == dart2.0);
                assert(fin.alpha(dart2.0 as int, idim as int) == dart1.0);
                assert(fin.created_since(&o, dart1.0 as int)) by {
                    assert(m2.darts@[dart1.0 as int] == m1.darts@[dart1.0 as int]);
                }
                assert(fin.created_since(&o, dart2.0 as int)) by {
                    if dart2.0 < o.len() {
                        assert(dart2.0 < m1.len());
                        assert(m1.darts@[dart2.0 as int] == o.darts@[dart2.0 as int]);
                    }
                }
                let news = set![dart1.0 as int, dart2.0 as int];
                assert forall|d: int| 0 <= d < o.len() && !news.contains(d) implies {
                    &&& (#[trigger] fin.darts@[d]).init == o.darts@[d].init
                    &&& fin.darts@[d].links@ == o.darts@[d].links@
                    &&& forall|k: int| 0 <= k < N ==> #[trigger] fin.alpha(d, k) == o.alpha(d, k)
                } by {
                    assert(m1.darts@[d] == o.darts@[d]);
                    assert(m2.darts@[d] == m1.darts@[d]);
                    assert forall|k: int| 0 <= k < N implies #[trigger] fin.alpha(d, k) == o.alpha(d, k) by {
                        if k == idim {
                            assert(fin.alpha(d, idim as int) == m2.alpha(d, idim as int));
                        } else {
                            assert(fin.alpha(d, k) == m2.alpha(d, k));
                        }
                    }
                }
            }
        }
        (dart1, dart2)
    }

    /// Creates a pair of darts alpha(0)-linked to each other: an edge (see
    /// `create_linked_pair`).
    pub fn create_edge(&mut self) -> (r: (DartIndex, DartIndex))
        requires
            old(self).wf(),
            0 < old(self).ndims,
            old(self).len() + 3 < usize::MAX,
            old(self).attribute_room(3 * N),
        ensures
            final(self).wf(),
            (seq![r.0, r.1], final(self).dart_index_allocator.count, final(self).dart_index_allocator.nodes@)
                == reserve_run(old(self).dart_index_allocator.count, old(self).dart_index_allocator.nodes@, 2),
            final(self).len() <= old(self).len() + 2,
            1 <= r.0.0 < final(self).len(),
            1 <= r.1.0 < final(self).len(),
            final(self).grown_from(old(self)),
            final(self).room_used(old(self), 3 * N),
            old(self).free_indices_unused() ==> {
                &&& final(self).free_indices_unused()
                &&& final(self).linked_pair(old(self), r.0.0 as int, r.1.0 as int, 0)
                &&& final(self).kept_apart_from(old(self), set![r.0.0 as int, r.1.0 as int])
            },
            old(self).free_indices_unused() && old(self).involutive() ==> final(self).involutive(),
    {
        self.create_linked_pair(0)
    }

    /// Creates a pair of darts alpha(1)-linked to each other: a vertex with
    /// two open ends (see `create_linked_pair`).
    pub fn create_vertex(&mut self) -> (r: (DartIndex, DartIndex))
        requires
            old(self).wf(),
            1 < old(self).ndims,
            old(self).len() + 3 < usize::MAX,
            old(self).attribute_room(3 * N),
        ensures
            final(self).wf(),
            (seq![r.0, r.1], final(self).dart_index_allocator.count, final(self).dart_index_allocator.nodes@)
                == reserve_run(old(self).dart_index_allocator.count, old(self).dart_index_allocator.nodes@, 2),
            final(self).len() <= old(self).len() + 2,
            1 <= r.0.0 < final(self).len(),
            1 <= r.1.0 < final(self).len(),
            final(self).grown_from(old(self)),
            final(self).room_used(old(self), 3 * N),
            old(self).free_indices_unused() ==> {
                &&& final(self).free_indices_unused()
                &&& final(self).linked_pair(old(self), r.0.0 as int, r.1.0 as int, 1)
                &&& final(self).kept_apart_from(old(self), set![r.0.0 as int, r.1.0 as int])
            },
            old(self).free_indices_unused() && old(self).involutive() ==> final(self).involutive(),
    {
        self.create_linked_pair(1)
    }
}

/// Dart `i` of the pairs `e` taken in order: the first of pair `i / 2`
/// for even `i`, the second for odd `i`.
pub open spec fn pair_dart(e: Seq<(DartIndex, DartIndex)>, i: int) -> DartIndex {
    if i % 2 == 0 { e[i / 2].0 } else { e[i / 2].1 }
}

/// The darts of the pairs `e`, in order.
pub open spec fn pair_darts(e: Seq<(DartIndex, DartIndex)>) -> Seq<DartIndex> {
    Seq::new(2 * e.len(), |i: int| pair_dart(e, i))
}

/// No dart occurs twice among the pairs `e`.
pub open spec fn pairs_distinct(e: Seq<(DartIndex, DartIndex)>) -> bool {
    forall|i: int, j: int|
        #![trigger pair_dart(e, i), pair_dart(e, j)]
        0 <= i < 2 * e.len() && 0 <= j < 2 * e.len() && i != j ==> pair_dart(e, i) != pair_dart(e, j)
}

/// The darts of the pairs `e`, as a set of integers.
pub open spec fn pair_set(e: Seq<(DartIndex, DartIndex)>) -> Set<int> {
    Set::new(|x: int| exists|i: int| 0 <= i < 2 * e.len() && (#[trigger] pair_dart(e, i)).0 == x)
}

/// Reserving `m1 + m2` indices in turn is reserving `m1`, then `m2` more.
pub proof fn lemma_reserve_run_split(count: usize, nodes: Seq<crate::index_allocator::AllocationNode>, m1: nat, m2: nat)
    ensures
        ({
            let (s1, c1, n1) = reserve_run(count, nodes, m1);
            let (s2, c2, n2) = reserve_run(c1, n1, m2);
            reserve_run(count, nodes, m1 + m2) == (s1 + s2, c2, n2)
        }),
    decreases m2,
{
    let (s1, c1, n1) = reserve_run(count, nodes, m1);
    if m2 == 0 {
        assert(s1 + Seq::<DartIndex>::empty() =~= s1);
    } else {
        lemma_reserve_run_split(count, nodes, m1, (m2 - 1) as nat);
        let (s2, c2, n2) = reserve_run(c1, n1, (m2 - 1) as nat);
        let (i, c3, n3) = crate::index_allocator::reserve_spec(c2, n2);
        assert(reserve_run(count, nodes, (m1 + m2 - 1) as nat) == (s1 + s2, c2, n2));
        assert(reserve_run(count, nodes, m1 + m2) == ((s1 + s2).push(DartIndex(i)), c3, n3));
        assert((s1 + s2).push(DartIndex(i)) =~= s1 + s2.push(DartIndex(i)));
    }
}

/// Adding a pair adds its two darts to the set of darts.
pub proof fn lemma_pair_set_push(e: Seq<(DartIndex, DartIndex)>, p: (DartIndex, DartIndex), x: int)
    ensures
        pair_set(e.push(p)).contains(x) <==> (pair_set(e).contains(x) || x == p.0.0 || x == p.1.0),
{
    let f = e.push(p);
    if pair_set(f).contains(x) {
        let i = choose|i: int| 0 <= i < 2 * f.len() && (#[trigger] pair_dart(f, i)).0 == x;
        if i < 2 * e.len() {
            assert(pair_dart(f, i) == pair_dart(e, i));
        }
    }
    if pair_set(e).contains(x) {
        let i = choose|i: int| 0 <= i < 2 * e.len() && (#[trigger] pair_dart(e, i)).0 == x;
        assert(pair_dart(f, i) == pair_dart(e, i));
    }
    if x == p.0.0 {
        assert(pair_dart(f, 2 * e.len() as int).0 == x);
    }
    if x == p.1.0 {
        assert(pair_dart(f, 2 * e.len() as int + 1).0 == x);
    }
}

/// The links taking part in sewing along alpha(`alpha`) are below `n` and
/// are none of alpha(`alpha` - 1), alpha(`alpha`), alpha(`alpha` + 1).
pub proof fn lemma_seq_sewing_values(alpha: int, n: int)
    requires
        0 <= alpha < n,
        n <= usize::MAX,
    ensures
        forall|j: int| 0 <= j < seq_sewing(alpha, n).len() ==> {
            &&& 0 <= #[trigger] seq_sewing(alpha, n)[j] < n
            &&& seq_sewing(alpha, n)[j] + 1 != alpha
            &&& seq_sewing(alpha, n)[j] != alpha
            &&& seq_sewing(alpha, n)[j] != alpha + 1
        },
{
    let low: int = if alpha >= 2 { alpha - 1 } else { 0 };
    let high: int = if alpha + 2 < n { n - (alpha + 2) } else { 0 };
    assert forall|j: int| 0 <= j < seq_sewing(alpha, n).len() implies {
        &&& 0 <= #[trigger] seq_sewing(alpha, n)[j] < n
        &&& seq_sewing(alpha, n)[j] + 1 != alpha
        &&& seq_sewing(alpha, n)[j] != alpha
        &&& seq_sewing(alpha, n)[j] != alpha + 1
    } by {
        let v: int = if j < low { j } else { j - low + alpha + 2 };
        assert(0 <= v < n);
        assert(seq_sewing(alpha, n)[j] == v as usize);
    }
}

impl<const N: usize, const NA: usize, const NL: usize> NGMap<N, NA, NL> {
    /// Creates `n` pairs of darts in turn, each alpha(`idim`)-linked (see
    /// `create_linked_pair`).
    fn create_pairs(&mut self, n: usize, idim: usize) -> (e: Vec<(DartIndex, DartIndex)>)
        requires
            old(self).wf(),
            idim < old(self).ndims,
            old(self).len() + 2 * n + 3 < usize::MAX,
            old(self).attribute_room(3 * N * n),
        ensures
            final(self).wf(),
            e@.len() == n,
            (pair_darts(e@), final(self).dart_index_allocator.count, final(self).dart_index_allocator.nodes@)
                == reserve_run(old(self).dart_index_allocator.count, old(self).dart_index_allocator.nodes@, 2 * n as nat),
            final(self).len() <= old(self).len() + 2 * n,
            forall|k: int| 0 <= k < n ==> 1 <= (#[trigger] e@[k]).0.0 < final(self).len() && 1 <= e@[k].1.0 < final(self).len(),
            final(self).grown_from(old(self)),
            final(self).room_used(old(self), 3 * N * n),
            old(self).free_indices_unused() ==> {
                &&& final(self).free_indices_unused()
                &&& pairs_distinct(e@)
                &&& forall|k: int| 0 <= k < n ==> #[trigger] final(self).linked_pair(old(self), e@[k].0.0 as int, e@[k].1.0 as int, idim as int)
                &&& final(self).kept_apart_from(old(self), pair_set(e@))
            },
            old(self).free_indices_unused() && old(self).involutive() ==> final(self).involutive(),
    {
        let ghost o = *old(self);
        let mut e: Vec<(DartIndex, DartIndex)> = Vec::new();
        let mut t: usize = 0;
        proof {
            assert(pair_darts(e@) =~= Seq::<DartIndex>::empty());
            assert forall|s: int| 0 <= s < NA implies #[trigger] self.slot_count(s) <= o.slot_count(s) + 3 * N * 0 by {}
        }
        while t < n
            invariant
                self.wf(),
                o.wf(),
                t <= n,
                idim < o.ndims,
                o.len() + 2 * n + 3 < usize::MAX,
                o.attribute_room(3 * N * n),
                e@.len() == t,
                (pair_darts(e@), self.dart_index_allocator.count, self.dart_index_allocator.nodes@)
                    == reserve_run(o.dart_index_allocator.count, o.dart_index_allocator.nodes@, 2 * t as nat),
                self.len() <= o.len() + 2 * t,
                forall|k: int| 0 <= k < t ==> 1 <= (#[trigger] e@[k]).0.0 < self.len() && 1 <= e@[k].1.0 < self.len(),
                self.grown_from(&o),
                self.room_used(&o, 3 * N * t),
                o.free_indices_unused() ==> {
                    &&& self.free_indices_unused()
                    &&& pairs_distinct(e@)
                    &&& forall|k: int| 0 <= k < t ==> #[trigger] self.linked_pair(&o, e@[k].0.0 as int, e@[k].1.0 as int, idim as int)
                    &&& self.kept_apart_from(&o, pair_set(e@))
                },
                o.free_indices_unused() && o.involutive() ==> self.involutive(),
            decreases n - t,
        {
            let ghost pre = *self;
            proof {
                assert(3 * N * t + 3 * N <= 3 * N * n) by (nonlinear_arith)
                    requires t < n;
                assert(pre.attribute_room(3 * N)) by {
                    pre.lemma_room_left(&o, 3 * N * t, 3 * N);
                }
            }
            let p = self.create_linked_pair(idim);
            let ghost prev = e@;
            e.push(p);
            proof {
                let fin = *self;
                fin.lemma_room_used_trans(&pre, &o, 3 * N * t, 3 * N);
                assert(3 * N * t + 3 * N == 3 * N * (t + 1)) by (nonlinear_arith);
                lemma_reserve_run_split(o.dart_index_allocator.count, o.dart_index_allocator.nodes@, 2 * t as nat, 2);
                assert(pair_darts(e@) =~= pair_darts(prev) + seq![p.0, p.1]) by {
                    assert forall|i: int| 0 <= i < 2 * (t + 1) implies #[trigger] pair_darts(e@)[i] == (pair_darts(prev) + seq![p.0, p.1])[i] by {
                        if i < 2 * t {
                            assert(pair_dart(e@, i) == pair_dart(prev, i));
                        }
                    }
                }
                assert((2 * t + 2) as nat == (2 * (t + 1)) as nat);
                if o.free_indices_unused() {
                    let a = p.0.0 as int;
                    let b = p.1.0 as int;
                    assert forall|i: int| 0 <= i < 2 * t implies pre.darts@[(#[trigger] pair_dart(prev, i)).0 as int].init
                        && pair_dart(prev, i).0 < pre.len() && pair_dart(prev, i).0 != a && pair_dart(prev, i).0 != b by {
                        let k = i / 2;
                        assert(pre.linked_pair(&o, prev[k].0.0 as int, prev[k].1.0 as int, idim as int));
                    }
                    assert(pairs_distinct(e@)) by {
                        assert forall|i: int, j: int|
                            #![trigger pair_dart(e@, i), pair_dart(e@, j)]
                            0 <= i < 2 * e@.len() && 0 <= j < 2 * e@.len() && i != j implies pair_dart(e@, i) != pair_dart(e@, j) by {
                            if i < 2 * t {
                                assert(pair_dart(e@, i) == pair_dart(prev, i));
                            }
                            if j < 2 * t {
                                assert(pair_dart(e@, j) == pair_dart(prev, j));
                            }
                            if i < 2 * t && j < 2 * t {
                                assert(pair_dart(prev, i) != pair_dart(prev, j));
                            }
                        }
                    }
                    assert(e@ == prev.push(p));
                    assert forall|k: int| 0 <= k < t + 1 implies #[trigger] fin.linked_pair(&o, e@[k].0.0 as int, e@[k].1.0 as int, idim as int) by {
                        if k < t {
                            let x = e@[k].0.0 as int;
                            let y = e@[k].1.0 as int;
                            assert(pre.linked_pair(&o, x, y, idim as int));
                            assert(pair_dart(prev, 2 * k) == prev[k].0);
                            assert(pair_dart(prev, 2 * k + 1) == prev[k].1);
                            assert(!set![a, b].contains(x));
                            assert(!set![a, b].contains(y));
                            assert forall|j: int| 0 <= j < N implies #[trigger] fin.alpha(x, j) == pre.alpha(x, j) by {}
                            assert forall|j: int| 0 <= j < N implies #[trigger] fin.alpha(y, j) == pre.alpha(y, j) by {}
                        } else {
                            assert(fin.linked_pair(&pre, a, b, idim as int));
                            assert(!pair_set(prev).contains(a)) by {
                                if pair_set(prev).contains(a) {
                                    let i = choose|i: int| 0 <= i < 2 * prev.len() && (#[trigger] pair_dart(prev, i)).0 == a;
                                }
                            }
                            assert(!pair_set(prev).contains(b)) by {
                                if pair_set(prev).contains(b) {
                                    let i = choose|i: int| 0 <= i < 2 * prev.len() && (#[trigger] pair_dart(prev, i)).0 == b;
                                }
                            }
                            if a < o.len() {
                                assert(pre.darts@[a].init == o.darts@[a].init);
                            }
                            if b < o.len() {
                                assert(pre.darts@[b].init == o.darts@[b].init);
                            }
                        }
                    }
                    assert forall|d: int| 0 <= d < o.len() && !pair_set(e@).contains(d) implies {
                        &&& (#[trigger] fin.darts@[d]).init == o.darts@[d].init
                        &&& fin.darts@[d].links@ == o.darts@[d].links@
                        &&& forall|k: int| 0 <= k < N ==> #[trigger] fin.alpha(d, k) == o.alpha(d, k)
                    } by {
                        lemma_pair_set_push(prev, p, d);
                        assert(!set![a, b].contains(d));
                        assert(!pair_set(prev).contains(d));
                        assert forall|k: int| 0 <= k < N implies #[trigger] fin.alpha(d, k) == o.alpha(d, k) by {
                            assert(fin.alpha(d, k) == pre.alpha(d, k));
                        }
                    }
                }
            }
            t = t + 1;
        }
        e
    }
}

/// The pair after pair `k` among `n` pairs, going round.
pub open spec fn next_pair(k: int, n: int) -> int {
    if k + 1 < n { k + 1 } else { 0 }
}

impl<const N: usize, const NA: usize, const NL: usize> NGMap<N, NA, NL> {
    /// Where alpha(`alpha`) of the second dart of pair `k` leads once the
    /// first `t` joints of `e` are made: to the first dart of the next pair
    /// for `k < t`, nowhere (itself) otherwise.
    pub open spec fn joint_second(e: Seq<(DartIndex, DartIndex)>, t: int, k: int) -> int {
        if k < t { e[next_pair(k, e.len() as int)].0.0 as int } else { e[k].1.0 as int }
    }

    /// Where alpha(`alpha`) of the first dart of pair `k` leads once the
    /// first `t` joints of `e` are made; with `closed`, the last joint ties
    /// the last pair to the first.
    pub open spec fn joint_first(e: Seq<(DartIndex, DartIndex)>, t: int, closed: bool, k: int) -> int {
        if 0 < k <= t {
            e[k - 1].1.0 as int
        } else if k == 0 && closed && t == e.len() {
            e[e.len() - 1].1.0 as int
        } else {
            e[k].0.0 as int
        }
    }

    /// Pair `k` of `e` was created since `old`, its darts are
    /// alpha(`idim`)-linked, and their alpha(`alpha`) links are those of the
    /// first `t` joints.
    pub open spec fn pair_state(&self, old: &Self, e: Seq<(DartIndex, DartIndex)>, idim: int, alpha: int, t: int, closed: bool, k: int) -> bool {
        &&& self.created_since(old, e[k].0.0 as int)
        &&& self.created_since(old, e[k].1.0 as int)
        &&& self.alpha(e[k].0.0 as int, idim) == e[k].1.0
        &&& self.alpha(e[k].1.0 as int, idim) == e[k].0.0
        &&& self.alpha(e[k].1.0 as int, alpha) == Self::joint_second(e, t, k)
        &&& self.alpha(e[k].0.0 as int, alpha) == Self::joint_first(e, t, closed, k)
    }

    /// The pairs `e`, created since `old` and alpha(`idim`)-linked, are
    /// joined in turn along alpha(`alpha`) by their first `t` joints (the
    /// second dart of a pair to the first dart of the next); their other
    /// links are those of isolated darts, and the darts of `old` outside
    /// the pairs keep their state.
    pub open spec fn pairs_joined(&self, old: &Self, e: Seq<(DartIndex, DartIndex)>, idim: int, alpha: int, t: int, closed: bool) -> bool {
        &&& self.free_indices_unused()
        &&& pairs_distinct(e)
        &&& self.kept_apart_from(old, pair_set(e))
        &&& forall|k: int| 0 <= k < e.len() ==> #[trigger] self.pair_state(old, e, idim, alpha, t, closed, k)
        &&& forall|k: int, j: int|
            #![trigger self.alpha(e[k].0.0 as int, j)]
            #![trigger self.alpha(e[k].1.0 as int, j)]
            0 <= k < e.len() && 0 <= j < N && j != idim && j != alpha ==> {
                &&& self.alpha(e[k].0.0 as int, j) == (if j < self.ndims { e[k].0.0 as int } else { 0 })
                &&& self.alpha(e[k].1.0 as int, j) == (if j < self.ndims { e[k].1.0 as int } else { 0 })
            }
    }

    /// Before joint `t`, the two darts to be sewn are distinct, the first
    /// is alpha(`alpha`)-free, and the links taking part in the sewing
    /// leave both in place.
    proof fn lemma_join_ready(pre: &Self, o: &Self, e: Seq<(DartIndex, DartIndex)>, idim: int, alpha: int, t: int, closed: bool)
        requires
            pre.wf(),
            pre.pairs_joined(o, e, idim, alpha, t, closed),
            0 <= t < e.len(),
            0 <= alpha < pre.ndims,
            0 <= idim < pre.ndims,
            idim + 1 == alpha || alpha + 1 == idim,
        ensures
            ({
                let d1 = e[t].1.0 as int;
                let d2 = e[next_pair(t, e.len() as int)].0.0 as int;
                &&& d1 != d2
                &&& pre.free(d1, alpha)
                &&& pre.free(d2, alpha)
                &&& pre.plain_under(d1, seq_sewing(alpha, pre.ndims as int))
                &&& pre.plain_under(d2, seq_sewing(alpha, pre.ndims as int))
            }),
    {
        let next = next_pair(t, e.len() as int);
        let d1 = e[t].1.0 as int;
        let d2 = e[next].0.0 as int;
        let iseq = seq_sewing(alpha, pre.ndims as int);
        lemma_seq_sewing_values(alpha, pre.ndims as int);
        assert(pair_dart(e, 2 * t + 1) == e[t].1);
        assert(pair_dart(e, 2 * next) == e[next].0);
        assert(pair_dart(e, 2 * t + 1) != pair_dart(e, 2 * next));
        assert(pre.pair_state(o, e, idim, alpha, t, closed, t));
        assert(pre.pair_state(o, e, idim, alpha, t, closed, next));
        assert(pre.alpha(d1, alpha) == Self::joint_second(e, t, t));
        assert forall|j: int| 0 <= j < iseq.len() implies #[trigger] pre.alpha(d1, iseq[j] as int) == d1 by {
            assert(pre.alpha(e[t].1.0 as int, iseq[j] as int) == (if iseq[j] < pre.ndims { e[t].1.0 as int } else { 0 }));
        }
        assert forall|j: int| 0 <= j < iseq.len() implies #[trigger] pre.alpha(d2, iseq[j] as int) == d2 by {
            assert(pre.alpha(e[next].0.0 as int, iseq[j] as int) == (if iseq[j] < pre.ndims { e[next].0.0 as int } else { 0 }));
        }
    }

    /// Making joint `t` (linking the second dart of pair `t` and the first
    /// dart of the next pair along alpha(`alpha`), nothing else) gives the
    /// state after `t + 1` joints.
    proof fn lemma_join_step(pre: &Self, fin: &Self, o: &Self, e: Seq<(DartIndex, DartIndex)>, idim: int, alpha: int, t: int, closed: bool)
        requires
            pre.pairs_joined(o, e, idim, alpha, t, closed),
            fin.free_indices_unused(),
            0 <= t < e.len(),
            closed || t + 1 < e.len(),
            0 <= alpha < N,
            0 <= idim < N,
            idim != alpha,
            o.len() <= pre.len(),
            forall|i: int| 0 <= i < e.len() ==> (#[trigger] e[i]).0.0 < pre.len() && e[i].1.0 < pre.len(),
            fin.len() == pre.len(),
            fin.ndims == pre.ndims,
            forall|x: int| 0 <= x < pre.len() ==> (#[trigger] fin.darts@[x]).init == pre.darts@[x].init
                && fin.darts@[x].links@ == pre.darts@[x].links@,
            forall|x: int, k: int| 0 <= x < pre.len() && 0 <= k < N && k != alpha ==> #[trigger] fin.alpha(x, k) == pre.alpha(x, k),
            forall|x: int| 0 <= x < pre.len() ==> #[trigger] fin.alpha(x, alpha) == (
                if x == e[next_pair(t, e.len() as int)].0.0 { e[t].1.0 as int }
                else if x == e[t].1.0 { e[next_pair(t, e.len() as int)].0.0 as int }
                else { pre.alpha(x, alpha) }),
        ensures
            fin.pairs_joined(o, e, idim, alpha, t + 1, closed),
    {
        let next = next_pair(t, e.len() as int);
        let d1 = e[t].1.0 as int;
        let d2 = e[next].0.0 as int;
        assert forall|x: int| 0 <= x < o.len() && !pair_set(e).contains(x) implies {
            &&& (#[trigger] fin.darts@[x]).init == o.darts@[x].init
            &&& fin.darts@[x].links@ == o.darts@[x].links@
            &&& forall|j: int| 0 <= j < N ==> #[trigger] fin.alpha(x, j) == o.alpha(x, j)
        } by {
            assert(x != d1) by {
                assert(pair_dart(e, 2 * t + 1).0 == d1);
            }
            assert(x != d2) by {
                assert(pair_dart(e, 2 * next).0 == d2);
            }
            assert forall|j: int| 0 <= j < N implies #[trigger] fin.alpha(x, j) == o.alpha(x, j) by {
                assert(fin.alpha(x, j) == pre.alpha(x, j));
            }
        }
        assert forall|i: int| 0 <= i < e.len() implies #[trigger] fin.pair_state(o, e, idim, alpha, t + 1, closed, i) by {
            assert(pre.pair_state(o, e, idim, alpha, t, closed, i));
            let a = e[i].0.0 as int;
            let b = e[i].1.0 as int;
            assert(fin.darts@[a].init == pre.darts@[a].init);
            assert(fin.darts@[b].init == pre.darts@[b].init);
            assert(fin.alpha(a, idim) == pre.alpha(a, idim));
            assert(fin.alpha(b, idim) == pre.alpha(b, idim));
            assert(pair_dart(e, 2 * t + 1) == e[t].1);
            assert(pair_dart(e, 2 * next) == e[next].0);
            assert(pair_dart(e, 2 * i + 1) == e[i].1);
            assert(fin.alpha(b, alpha) == (if b == d2 { d1 } else if b == d1 { d2 } else { pre.alpha(b, alpha) }));
            if i != t {
                assert(pair_dart(e, 2 * t + 1) != pair_dart(e, 2 * i + 1));
            }
            assert(pair_dart(e, 2 * next) != pair_dart(e, 2 * i + 1));
            assert(pair_dart(e, 2 * i) == e[i].0);
            assert(fin.alpha(a, alpha) == (if a == d2 { d1 } else if a == d1 { d2 } else { pre.alpha(a, alpha) }));
            if i != next {
                assert(pair_dart(e, 2 * next) != pair_dart(e, 2 * i));
            }
            assert(pair_dart(e, 2 * t + 1) != pair_dart(e, 2 * i));
        }
        assert forall|i: int, j: int|
            #![trigger fin.alpha(e[i].0.0 as int, j)]
            #![trigger fin.alpha(e[i].1.0 as int, j)]
            0 <= i < e.len() && 0 <= j < N && j != idim && j != alpha implies {
            &&& fin.alpha(e[i].0.0 as int, j) == (if j < fin.ndims { e[i].0.0 as int } else { 0 })
            &&& fin.alpha(e[i].1.0 as int, j) == (if j < fin.ndims { e[i].1.0 as int } else { 0 })
        } by {
            assert(pre.alpha(e[i].0.0 as int, j) == (if j < pre.ndims { e[i].0.0 as int } else { 0 }));
            assert(pre.alpha(e[i].1.0 as int, j) == (if j < pre.ndims { e[i].1.0 as int } else { 0 }));
        }
    }

    /// Makes the joints of the pairs `e` in turn: sews the second dart of
    /// each pair to the first dart of the next along alpha(`alpha`),
    /// round to the first pair if `closed`.
    fn join_pairs(&mut self, e: &Vec<(DartIndex, DartIndex)>, idim: usize, alpha: usize, closed: bool, Ghost(o): Ghost<Self>)
        requires
            old(self).wf(),
            alpha < old(self).ndims,
            idim < old(self).ndims,
            idim + 1 == alpha || alpha + 1 == idim,
            closed || e@.len() > 0,
            o.len() <= old(self).len(),
            forall|k: int| 0 <= k < e@.len() ==> (#[trigger] e@[k]).0.0 < old(self).len() && e@[k].1.0 < old(self).len(),
            old(self).attribute_room(N * e@.len()),
        ensures
            final(self).wf(),
            final(self).len() == old(self).len(),
            final(self).grown_from(old(self)),
            final(self).dart_index_allocator == old(self).dart_index_allocator,
            final(self).room_used(old(self), N * e@.len()),
            old(self).pairs_joined(&o, e@, idim as int, alpha as int, 0, closed)
                ==> final(self).pairs_joined(&o, e@, idim as int, alpha as int, if closed { e@.len() as int } else { e@.len() - 1 }, closed),
            old(self).pairs_joined(&o, e@, idim as int, alpha as int, 0, closed) && old(self).involutive() ==> final(self).involutive(),
    {
        let ghost o0 = *old(self);
        let n = e.len();
        let steps: usize = if closed { n } else { n - 1 };
        let mut k: usize = 0;
        proof {
            assert forall|s: int| 0 <= s < NA implies #[trigger] self.slot_count(s) <= o0.slot_count(s) + N * 0 by {}
        }
        while k < steps
            invariant
                self.wf(),
                n == e@.len(),
                steps == (if closed { n as int } else { n - 1 }),
                steps <= n,
                k <= steps,
                alpha < self.ndims,
                idim < self.ndims,
                idim + 1 == alpha || alpha + 1 == idim,
                forall|i: int| 0 <= i < e@.len() ==> (#[trigger] e@[i]).0.0 < self.len() && e@[i].1.0 < self.len(),
                o0.attribute_room(N * e@.len()),
                self.len() == o0.len(),
                o.len() <= o0.len(),
                self.grown_from(&o0),
                self.dart_index_allocator == o0.dart_index_allocator,
                self.room_used(&o0, N * k),
                o0.pairs_joined(&o, e@, idim as int, alpha as int, 0, closed) ==> self.pairs_joined(&o, e@, idim as int, alpha as int, k as int, closed),
                o0.pairs_joined(&o, e@, idim as int, alpha as int, 0, closed) && o0.involutive() ==> self.involutive(),
            decreases steps - k,
        {
            let ghost pre = *self;
            proof {
                assert(N * k + N <= N * n) by (nonlinear_arith)
                    requires k < n;
                pre.lemma_room_left(&o0, N * k, N as int);
            }
            let next: usize = if k + 1 < n { k + 1 } else { 0 };
            let d1 = e[k].1;
            let d2 = e[next].0;
            proof {
                if o0.pairs_joined(&o, e@, idim as int, alpha as int, 0, closed) {
                    Self::lemma_join_ready(&pre, &o, e@, idim as int, alpha as int, k as int, closed);
                    let nx = next_pair(k as int, e@.len() as int);
                    assert(pre.pair_state(&o, e@, idim as int, alpha as int, k as int, closed, k as int));
                    assert(pre.pair_state(&o, e@, idim as int, alpha as int, k as int, closed, nx));
                }
            }
            self.sew_plain(d1, d2, alpha);
            proof {
                let fin = *self;
                fin.lemma_room_used_trans(&pre, &o0, N * k, N as int);
                assert(N * k + N == N * (k + 1)) by (nonlinear_arith);
                if o0.pairs_joined(&o, e@, idim as int, alpha as int, 0, closed) {
                    Self::lemma_join_step(&pre, &fin, &o, e@, idim as int, alpha as int, k as int, closed);
                }
            }
            k = k + 1;
        }
        proof {
            assert(N * steps <= N * n) by (nonlinear_arith)
                requires steps <= n;
            assert forall|s: int| 0 <= s < NA implies #[trigger] self.slot_count(s) <= o0.slot_count(s) + N * n by {
                assert(self.slot_count(s) <= o0.slot_count(s) + N * steps);
            }
        }
    }
}

impl<const N: usize, const NA: usize, const NL: usize> NGMap<N, NA, NL> {
    /// Freshly created linked pairs are joined by none of their joints yet.
    proof fn lemma_pairs_start(&self, o: &Self, e: Seq<(DartIndex, DartIndex)>, idim: int, alpha: int, closed: bool)
        requires
            self.free_indices_unused(),
            pairs_distinct(e),
            forall|k: int| 0 <= k < e.len() ==> #[trigger] self.linked_pair(o, e[k].0.0 as int, e[k].1.0 as int, idim),
            self.kept_apart_from(o, pair_set(e)),
            0 <= alpha < self.ndims,
            self.ndims <= N,
            alpha != idim,
        ensures
            self.pairs_joined(o, e, idim, alpha, 0, closed),
    {
        assert forall|k: int| 0 <= k < e.len() implies #[trigger] self.pair_state(o, e, idim, alpha, 0, closed, k) by {
            assert(self.linked_pair(o, e[k].0.0 as int, e[k].1.0 as int, idim));
        }
        assert forall|k: int, j: int|
            #![trigger self.alpha(e[k].0.0 as int, j)]
            #![trigger self.alpha(e[k].1.0 as int, j)]
            0 <= k < e.len() && 0 <= j < N && j != idim && j != alpha implies {
            &&& self.alpha(e[k].0.0 as int, j) == (if j < self.ndims { e[k].0.0 as int } else { 0 })
            &&& self.alpha(e[k].1.0 as int, j) == (if j < self.ndims { e[k].1.0 as int } else { 0 })
        } by {
            assert(self.linked_pair(o, e[k].0.0 as int, e[k].1.0 as int, idim));
        }
    }

    /// Creates `nlinks` edges (pairs of darts alpha(0)-linked, see
    /// `create_edge`) and joins them into a chain: the second dart of each
    /// edge is alpha(1)-linked to the first dart of the next. The darts are
    /// the next `2 * nlinks` indices that the dart allocator hands out.
    /// While the map's freed indices are out of use, the chain is exactly
    /// that (see `pairs_joined`) and the other darts keep their links.
    pub fn create_chain(&mut self, nlinks: usize) -> (r: Vec<(DartIndex, DartIndex)>)
        requires
            old(self).wf(),
            nlinks > 0,
            1 < old(self).ndims,
            old(self).len() + 2 * nlinks + 3 < usize::MAX,
            old(self).attribute_room(4 * N * nlinks),
        ensures
            final(self).wf(),
            r@.len() == nlinks,
            (pair_darts(r@), final(self).dart_index_allocator.count, final(self).dart_index_allocator.nodes@)
                == reserve_run(old(self).dart_index_allocator.count, old(self).dart_index_allocator.nodes@, 2 * nlinks as nat),
            final(self).len() <= old(self).len() + 2 * nlinks,
            final(self).grown_from(old(self)),
            final(self).room_used(old(self), 4 * N * nlinks),
            old(self).free_indices_unused() ==> final(self).pairs_joined(old(self), r@, 0, 1, nlinks - 1, false),
            old(self).free_indices_unused() && old(self).involutive() ==> final(self).involutive(),
    {
        let ghost o = *old(self);
        proof {
            assert(3 * N * nlinks + N * nlinks == 4 * N * nlinks) by (nonlinear_arith);
        }
        let edges = self.create_pairs(nlinks, 0);
        let ghost mid = *self;
        proof {
            mid.lemma_room_left(&o, 3 * N * nlinks, N * nlinks);
            if o.free_indices_unused() {
                mid.lemma_pairs_start(&o, edges@, 0, 1, false);
            }
        }
        self.join_pairs(&edges, 0, 1, false, Ghost(o));
        proof {
            self.lemma_room_used_trans(&mid, &o, 3 * N * nlinks, N * nlinks);
        }
        edges
    }

    /// Creates `nlinks` vertices (pairs of darts alpha(1)-linked, see
    /// `create_vertex`) and joins them into a ring: the second dart of each
    /// vertex is alpha(0)-linked to the first dart of the next, the last
    /// vertex to the first. The darts are the next `2 * nlinks` indices that
    /// the dart allocator hands out. While the map's freed indices are out
    /// of use, the ring is exactly that (see `pairs_joined`) and the other
    /// darts keep their links.
    pub fn create_ring(&mut self, nlinks: usize) -> (r: Vec<(DartIndex, DartIndex)>)
        requires
            old(self).wf(),
            nlinks > 0,
            1 < old(self).ndims,
            old(self).len() + 2 * nlinks + 3 < usize::MAX,
            old(self).attribute_room(4 * N * nlinks),
        ensures
            final(self).wf(),
            r@.len() == nlinks,
            (pair_darts(r@), final(self).dart_index_allocator.count, final(self).dart_index_allocator.nodes@)
                == reserve_run(old(self).dart_index_allocator.count, old(self).dart_index_allocator.nodes@, 2 * nlinks as nat),
            final(self).len() <= old(self).len() + 2 * nlinks,
            final(self).grown_from(old(self)),
            final(self).room_used(old(self), 4 * N * nlinks),
            old(self).free_indices_unused() ==> final(self).pairs_joined(old(self), r@, 1, 0, nlinks as int, true),
            old(self).free_indices_unused() && old(self).involutive() ==> final(self).involutive(),
    {
        let ghost o = *old(self);
        proof {
            assert(3 * N * nlinks + N * nlinks == 4 * N * nlinks) by (nonlinear_arith);
        }
        let vertices = self.create_pairs(nlinks, 1);
        let ghost mid = *self;
        proof {
            mid.lemma_room_left(&o, 3 * N * nlinks, N * nlinks);
            if o.free_indices_unused() {
                mid.lemma_pairs_start(&o, vertices@, 1, 0, true);
            }
        }
        self.join_pairs(&vertices, 1, 0, true, Ghost(o));
        proof {
            self.lemma_room_used_trans(&mid, &o, 3 * N * nlinks, N * nlinks);
        }
        vertices
    }

    /// Creates `nrays` vertices (pairs of darts alpha(1)-linked) joined in a
    /// circle along alpha(2): the second dart of each vertex is
    /// alpha(2)-linked to the first dart of the next, the last to the
    /// first. The darts are the next `2 * nrays` indices that the dart
    /// allocator hands out. While the map's freed indices are out of use,
    /// the star is exactly that (see `pairs_joined`) and the other darts
    /// keep their links.
    fn create_star_core(&mut self, nrays: usize) -> (r: Vec<(DartIndex, DartIndex)>)
        requires
            old(self).wf(),
            2 < old(self).ndims,
            old(self).len() + 2 * nrays + 3 < usize::MAX,
            old(self).attribute_room(4 * N * nrays),
        ensures
            final(self).wf(),
            r@.len() == nrays,
            (pair_darts(r@), final(self).dart_index_allocator.count, final(self).dart_index_allocator.nodes@)
                == reserve_run(old(self).dart_index_allocator.count, old(self).dart_index_allocator.nodes@, 2 * nrays as nat),
            final(self).len() <= old(self).len() + 2 * nrays,
            forall|k: int| 0 <= k < nrays ==> 1 <= (#[trigger] r@[k]).0.0 < final(self).len() && 1 <= r@[k].1.0 < final(self).len(),
            final(self).grown_from(old(self)),
            final(self).room_used(old(self), 4 * N * nrays),
            old(self).free_indices_unused() ==> final(self).pairs_joined(old(self), r@, 1, 2, nrays as int, true),
            old(self).free_indices_unused() && old(self).involutive() ==> final(self).involutive(),
    {
        let ghost o = *old(self);
        proof {
            assert(3 * N * nrays + N * nrays == 4 * N * nrays) by (nonlinear_arith);
        }
        let core = self.create_pairs(nrays, 1);
        let ghost mid = *self;
        proof {
            mid.lemma_room_left(&o, 3 * N * nrays, N * nrays);
            if o.free_indices_unused() {
                mid.lemma_pairs_start(&o, core@, 1, 2, true);
            }
        }
        self.join_pairs(&core, 1, 2, true, Ghost(o));
        proof {
            self.lemma_room_used_trans(&mid, &o, 3 * N * nrays, N * nrays);
        }
        core
    }
}

/// The pair before pair `k` among `n` pairs, going round.
pub open spec fn prev_pair(k: int, n: int) -> int {
    if k > 0 { k - 1 } else { n - 1 }
}

/// The darts of `s` taken two by two.
pub open spec fn pairs_of(s: Seq<DartIndex>) -> Seq<(DartIndex, DartIndex)> {
    Seq::new(s.len() / 2, |k: int| (s[2 * k], s[2 * k + 1]))
}

/// Dart `i` of two lists of pairs put one after the other.
pub proof fn lemma_pair_dart_concat(c: Seq<(DartIndex, DartIndex)>, e: Seq<(DartIndex, DartIndex)>, i: int)
    requires
        0 <= i < 2 * (c.len() + e.len()),
    ensures
        pair_dart(c + e, i) == (if i < 2 * c.len() { pair_dart(c, i) } else { pair_dart(e, i - 2 * c.len()) }),
{
    if i >= 2 * c.len() {
        assert((i - 2 * c.len()) / 2 == i / 2 - c.len());
        assert((i - 2 * c.len()) % 2 == i % 2);
    }
}

/// The links taking part in sewing along alpha(0) are alpha(2) up to
/// alpha(`n` - 1), in order.
pub proof fn lemma_seq_sewing_zero(n: int)
    requires
        2 < n <= usize::MAX,
    ensures
        seq_sewing(0, n).len() == n - 2,
        forall|j: int| 0 <= j < n - 2 ==> #[trigger] seq_sewing(0, n)[j] == j + 2,
{
}

impl<const N: usize, const NA: usize, const NL: usize> NGMap<N, NA, NL> {
    /// Ray `k` of a star whose core pairs `c` (alpha(1)-linked, joined in a
    /// circle along alpha(2)) get the end pairs `e` (alpha(2)-linked)
    /// attached along alpha(0), once the first `t` ends are attached: the
    /// first dart of core pair `k` to the second dart of end `k`, the
    /// second dart of the previous core pair to the first dart of end `k`.
    pub open spec fn ray_state(&self, old: &Self, c: Seq<(DartIndex, DartIndex)>, e: Seq<(DartIndex, DartIndex)>, t: int, k: int) -> bool {
        let n = c.len() as int;
        let p = prev_pair(k, n);
        let q = next_pair(k, n);
        &&& self.created_since(old, c[k].0.0 as int)
        &&& self.created_since(old, c[k].1.0 as int)
        &&& self.created_since(old, e[k].0.0 as int)
        &&& self.created_since(old, e[k].1.0 as int)
        &&& self.alpha(c[k].0.0 as int, 1) == c[k].1.0
        &&& self.alpha(c[k].1.0 as int, 1) == c[k].0.0
        &&& self.alpha(c[k].1.0 as int, 2) == c[q].0.0
        &&& self.alpha(c[k].0.0 as int, 2) == c[p].1.0
        &&& self.alpha(e[k].0.0 as int, 2) == e[k].1.0
        &&& self.alpha(e[k].1.0 as int, 2) == e[k].0.0
        &&& self.alpha(e[k].0.0 as int, 1) == e[k].0.0
        &&& self.alpha(e[k].1.0 as int, 1) == e[k].1.0
        &&& self.alpha(c[k].0.0 as int, 0) == (if k < t { e[k].1.0 as int } else { c[k].0.0 as int })
        &&& self.alpha(c[k].1.0 as int, 0) == (if q < t { e[q].0.0 as int } else { c[k].1.0 as int })
        &&& self.alpha(e[k].1.0 as int, 0) == (if k < t { c[k].0.0 as int } else { e[k].1.0 as int })
        &&& self.alpha(e[k].0.0 as int, 0) == (if k < t { c[p].1.0 as int } else { e[k].0.0 as int })
    }

    /// The star with core pairs `c` and end pairs `e` (see `ray_state`),
    /// created since `old`, has its first `t` ends attached; the links of
    /// its darts above alpha(2) are those of isolated darts, and the darts
    /// of `old` outside the star keep their state.
    pub open spec fn star_state(&self, old: &Self, c: Seq<(DartIndex, DartIndex)>, e: Seq<(DartIndex, DartIndex)>, t: int) -> bool {
        &&& c.len() == e.len()
        &&& self.free_indices_unused()
        &&& pairs_distinct(c + e)
        &&& self.kept_apart_from(old, pair_set(c + e))
        &&& forall|k: int| 0 <= k < c.len() ==> #[trigger] self.ray_state(old, c, e, t, k)
        &&& forall|k: int, j: int|
            #![trigger self.alpha(c[k].0.0 as int, j)]
            #![trigger self.alpha(c[k].1.0 as int, j)]
            #![trigger self.alpha(e[k].0.0 as int, j)]
            #![trigger self.alpha(e[k].1.0 as int, j)]
            0 <= k < c.len() && 3 <= j < N ==> {
                &&& self.alpha(c[k].0.0 as int, j) == (if j < self.ndims { c[k].0.0 as int } else { 0 })
                &&& self.alpha(c[k].1.0 as int, j) == (if j < self.ndims { c[k].1.0 as int } else { 0 })
                &&& self.alpha(e[k].0.0 as int, j) == (if j < self.ndims { e[k].0.0 as int } else { 0 })
                &&& self.alpha(e[k].1.0 as int, j) == (if j < self.ndims { e[k].1.0 as int } else { 0 })
            }
    }
}

/// The darts of two lists of pairs put one after the other.
pub proof fn lemma_pair_set_concat(c: Seq<(DartIndex, DartIndex)>, e: Seq<(DartIndex, DartIndex)>, x: int)
    ensures
        pair_set(c + e).contains(x) <==> (pair_set(c).contains(x) || pair_set(e).contains(x)),
{
    if pair_set(c + e).contains(x) {
        let i = choose|i: int| 0 <= i < 2 * (c + e).len() && (#[trigger] pair_dart(c + e, i)).0 == x;
        lemma_pair_dart_concat(c, e, i);
        if i >= 2 * c.len() {
            assert(pair_dart(e, i - 2 * c.len()).0 == x);
        }
    }
    if pair_set(c).contains(x) {
        let i = choose|i: int| 0 <= i < 2 * c.len() && (#[trigger] pair_dart(c, i)).0 == x;
        lemma_pair_dart_concat(c, e, i);
        assert(pair_dart(c + e, i).0 == x);
    }
    if pair_set(e).contains(x) {
        let i = choose|i: int| 0 <= i < 2 * e.len() && (#[trigger] pair_dart(e, i)).0 == x;
        lemma_pair_dart_concat(c, e, i + 2 * c.len());
        assert(pair_dart(c + e, i + 2 * c.len()).0 == x);
    }
}

impl<const N: usize, const NA: usize, const NL: usize> NGMap<N, NA, NL> {
    /// A circle of core pairs joined along alpha(2), then end pairs
    /// alpha(2)-linked and created after it, make a star with no end
    /// attached yet.
    proof fn lemma_star_start(m: &Self, fin: &Self, o: &Self, c: Seq<(DartIndex, DartIndex)>, e: Seq<(DartIndex, DartIndex)>)
        requires
            m.pairs_joined(o, c, 1, 2, c.len() as int, true),
            2 < m.ndims <= N,
            o.len() <= m.len(),
            c.len() == e.len(),
            fin.free_indices_unused(),
            pairs_distinct(e),
            forall|k: int| 0 <= k < e.len() ==> #[trigger] fin.linked_pair(m, e[k].0.0 as int, e[k].1.0 as int, 2),
            fin.kept_apart_from(m, pair_set(e)),
            fin.len() >= m.len(),
            fin.ndims == m.ndims,
        ensures
            fin.star_state(o, c, e, 0),
    {
        let n = c.len() as int;
        assert forall|x: int| pair_set(c).contains(x) implies 1 <= x < m.len() && m.darts@[x].init && !pair_set(e).contains(x) by {
            let i = choose|i: int| 0 <= i < 2 * c.len() && (#[trigger] pair_dart(c, i)).0 == x;
            assert(m.pair_state(o, c, 1, 2, n, true, i / 2));
            if pair_set(e).contains(x) {
                let i2 = choose|i2: int| 0 <= i2 < 2 * e.len() && (#[trigger] pair_dart(e, i2)).0 == x;
                assert(fin.linked_pair(m, e[i2 / 2].0.0 as int, e[i2 / 2].1.0 as int, 2));
            }
        }
        assert forall|i: int| 0 <= i < 2 * n implies #[trigger] pair_set(c).contains(pair_dart(c, i).0 as int) by {}
        assert forall|i: int| 0 <= i < 2 * n implies #[trigger] pair_set(e).contains(pair_dart(e, i).0 as int) by {}
        assert(pairs_distinct(c + e)) by {
            assert forall|i: int, j: int|
                #![trigger pair_dart(c + e, i), pair_dart(c + e, j)]
                0 <= i < 2 * (c + e).len() && 0 <= j < 2 * (c + e).len() && i != j implies pair_dart(c + e, i) != pair_dart(c + e, j) by {
                lemma_pair_dart_concat(c, e, i);
                lemma_pair_dart_concat(c, e, j);
                if i < 2 * n && j < 2 * n {
                    assert(pair_dart(c, i) != pair_dart(c, j));
                } else if i >= 2 * n && j >= 2 * n {
                    assert(pair_dart(e, i - 2 * n) != pair_dart(e, j - 2 * n));
                } else if i < 2 * n {
                    assert(pair_set(c).contains(pair_dart(c, i).0 as int));
                    assert(pair_set(e).contains(pair_dart(e, j - 2 * n).0 as int));
                } else {
                    assert(pair_set(c).contains(pair_dart(c, j).0 as int));
                    assert(pair_set(e).contains(pair_dart(e, i - 2 * n).0 as int));
                }
            }
        }
        assert forall|d: int| 0 <= d < o.len() && !pair_set(c + e).contains(d) implies {
            &&& (#[trigger] fin.darts@[d]).init == o.darts@[d].init
            &&& fin.darts@[d].links@ == o.darts@[d].links@
            &&& forall|k: int| 0 <= k < N ==> #[trigger] fin.alpha(d, k) == o.alpha(d, k)
        } by {
            lemma_pair_set_concat(c, e, d);
            assert forall|k: int| 0 <= k < N implies #[trigger] fin.alpha(d, k) == o.alpha(d, k) by {
                assert(fin.alpha(d, k) == m.alpha(d, k));
            }
        }
        assert forall|k: int| 0 <= k < n implies #[trigger] fin.ray_state(o, c, e, 0, k) by {
            let p = prev_pair(k, n);
            let q = next_pair(k, n);
            assert(m.pair_state(o, c, 1, 2, n, true, k));
            assert(fin.linked_pair(m, e[k].0.0 as int, e[k].1.0 as int, 2));
            let c0 = c[k].0.0 as int;
            let c1 = c[k].1.0 as int;
            assert(pair_dart(c, 2 * k) == c[k].0);
            assert(pair_dart(c, 2 * k + 1) == c[k].1);
            assert(pair_set(c).contains(c0));
            assert(pair_set(c).contains(c1));
            assert(fin.alpha(c0, 0) == m.alpha(c0, 0));
            assert(fin.alpha(c1, 0) == m.alpha(c1, 0));
            assert(fin.alpha(c0, 1) == m.alpha(c0, 1));
            assert(fin.alpha(c1, 1) == m.alpha(c1, 1));
            assert(fin.alpha(c0, 2) == m.alpha(c0, 2));
            assert(fin.alpha(c1, 2) == m.alpha(c1, 2));
            assert(m.alpha(c0, 0) == c0);
            assert(m.alpha(c1, 0) == c1);
            let e0 = e[k].0.0 as int;
            let e1 = e[k].1.0 as int;
            assert(pair_dart(e, 2 * k) == e[k].0);
            assert(pair_dart(e, 2 * k + 1) == e[k].1);
            if e0 < o.len() {
                assert(!pair_set(c).contains(e0));
                assert(m.darts@[e0].init == o.darts@[e0].init);
            }
            if e1 < o.len() {
                assert(!pair_set(c).contains(e1));
                assert(m.darts@[e1].init == o.darts@[e1].init);
            }
        }
        assert forall|k: int, j: int|
            #![trigger fin.alpha(c[k].0.0 as int, j)]
            #![trigger fin.alpha(c[k].1.0 as int, j)]
            #![trigger fin.alpha(e[k].0.0 as int, j)]
            #![trigger fin.alpha(e[k].1.0 as int, j)]
            0 <= k < n && 3 <= j < N implies {
                &&& fin.alpha(c[k].0.0 as int, j) == (if j < fin.ndims { c[k].0.0 as int } else { 0 })
                &&& fin.alpha(c[k].1.0 as int, j) == (if j < fin.ndims { c[k].1.0 as int } else { 0 })
                &&& fin.alpha(e[k].0.0 as int, j) == (if j < fin.ndims { e[k].0.0 as int } else { 0 })
                &&& fin.alpha(e[k].1.0 as int, j) == (if j < fin.ndims { e[k].1.0 as int } else { 0 })
            } by {
            assert(fin.linked_pair(m, e[k].0.0 as int, e[k].1.0 as int, 2));
            assert(pair_dart(c, 2 * k) == c[k].0);
            assert(pair_dart(c, 2 * k + 1) == c[k].1);
            assert(pair_set(c).contains(c[k].0.0 as int));
            assert(pair_set(c).contains(c[k].1.0 as int));
            assert(fin.alpha(c[k].0.0 as int, j) == m.alpha(c[k].0.0 as int, j));
            assert(fin.alpha(c[k].1.0 as int, j) == m.alpha(c[k].1.0 as int, j));
            assert(m.alpha(c[k].0.0 as int, j) == (if j < m.ndims { c[k].0.0 as int } else { 0 }));
            assert(m.alpha(c[k].1.0 as int, j) == (if j < m.ndims { c[k].1.0 as int } else { 0 }));
        }
    }
}

impl<const N: usize, const NA: usize, const NL: usize> NGMap<N, NA, NL> {
    /// Before end `t` is attached, the first dart of core pair `t` and its
    /// alpha(2) partner, and the second dart of end `t` and its partner,
    /// are four distinct darts, each pair exchanged by alpha(2) and left in
    /// place by the links above; the first is alpha(0)-free.
    proof fn lemma_star_ready(pre: &Self, o: &Self, c: Seq<(DartIndex, DartIndex)>, e: Seq<(DartIndex, DartIndex)>, t: int)
        requires
            pre.star_state(o, c, e, t),
            0 <= t < c.len(),
            2 < pre.ndims <= N,
        ensures
            ({
                let n = c.len() as int;
                let d1 = c[t].0.0 as int;
                let d2 = e[t].1.0 as int;
                let q1 = c[prev_pair(t, n)].1.0 as int;
                let q2 = e[t].0.0 as int;
                let iseq = seq_sewing(0, pre.ndims as int);
                &&& d1 != d2 && d1 != q1 && d1 != q2 && d2 != q1 && d2 != q2 && q1 != q2
                &&& q1 != 0 && q2 != 0 && d1 != 0 && d2 != 0
                &&& pre.free(d1, 0)
                &&& pre.free(d2, 0)
                &&& pre.free(q1, 0)
                &&& pre.free(q2, 0)
                &&& 0 <= q1 < pre.len() && 0 <= q2 < pre.len()
                &&& pre.is_init(d1) && pre.is_init(d2) && pre.is_init(q1) && pre.is_init(q2)
                &&& pre.swapped_by(d1, q1, iseq, 0)
                &&& pre.swapped_by(d2, q2, iseq, 0)
            }),
    {
        let n = c.len() as int;
        let p = prev_pair(t, n);
        let d1 = c[t].0.0 as int;
        let d2 = e[t].1.0 as int;
        let q1 = c[p].1.0 as int;
        let q2 = e[t].0.0 as int;
        let iseq = seq_sewing(0, pre.ndims as int);
        lemma_seq_sewing_zero(pre.ndims as int);
        lemma_pair_dart_concat(c, e, 2 * t);
        lemma_pair_dart_concat(c, e, 2 * p + 1);
        lemma_pair_dart_concat(c, e, 2 * n + 2 * t);
        lemma_pair_dart_concat(c, e, 2 * n + 2 * t + 1);
        assert(pair_dart(c + e, 2 * t).0 == d1);
        assert(pair_dart(c + e, 2 * p + 1).0 == q1);
        assert(pair_dart(c + e, 2 * n + 2 * t).0 == q2);
        assert(pair_dart(c + e, 2 * n + 2 * t + 1).0 == d2);
        assert(pre.ray_state(o, c, e, t, t));
        assert(pre.ray_state(o, c, e, t, p));
        assert(next_pair(p, n) == t);
        assert forall|j: int| 0 <= j < iseq.len() implies #[trigger] pre.alpha(d1, iseq[j] as int) == (if iseq[j] == iseq[0] { q1 } else { d1 }) by {
            assert(iseq[j] == j + 2);
        }
        assert forall|j: int| 0 <= j < iseq.len() implies #[trigger] pre.alpha(q1, iseq[j] as int) == (if iseq[j] == iseq[0] { d1 } else { q1 }) by {
            assert(iseq[j] == j + 2);
        }
        assert forall|j: int| 0 <= j < iseq.len() implies #[trigger] pre.alpha(d2, iseq[j] as int) == (if iseq[j] == iseq[0] { q2 } else { d2 }) by {
            assert(iseq[j] == j + 2);
        }
        assert forall|j: int| 0 <= j < iseq.len() implies #[trigger] pre.alpha(q2, iseq[j] as int) == (if iseq[j] == iseq[0] { d2 } else { q2 }) by {
            assert(iseq[j] == j + 2);
        }
    }

    /// Attaching end `t` (linking, along alpha(0), the first dart of core
    /// pair `t` with the second dart of end `t` and the second dart of the
    /// previous core pair with the first dart of end `t`, nothing else)
    /// gives the star with `t + 1` ends attached.
    proof fn lemma_star_step(pre: &Self, fin: &Self, o: &Self, c: Seq<(DartIndex, DartIndex)>, e: Seq<(DartIndex, DartIndex)>, t: int)
        requires
            pre.star_state(o, c, e, t),
            0 <= t < c.len(),
            2 < pre.ndims <= N,
            fin.free_indices_unused(),
            o.len() <= pre.len(),
            fin.len() == pre.len(),
            fin.ndims == pre.ndims,
            forall|x: int| 0 <= x < pre.len() ==> (#[trigger] fin.darts@[x]).init == pre.darts@[x].init
                && fin.darts@[x].links@ == pre.darts@[x].links@,
            forall|x: int, k: int| 0 <= x < pre.len() && 0 <= k < N && k != 0 ==> #[trigger] fin.alpha(x, k) == pre.alpha(x, k),
            forall|x: int| 0 <= x < pre.len() ==> #[trigger] fin.alpha(x, 0) == (
                if x == e[t].1.0 { c[t].0.0 as int } else if x == c[t].0.0 { e[t].1.0 as int }
                else if x == e[t].0.0 { c[prev_pair(t, c.len() as int)].1.0 as int }
                else if x == c[prev_pair(t, c.len() as int)].1.0 { e[t].0.0 as int } else { pre.alpha(x, 0) }),
        ensures
            fin.star_state(o, c, e, t + 1),
    {
        let n = c.len() as int;
        let p = prev_pair(t, n);
        let d1 = c[t].0.0 as int;
        let d2 = e[t].1.0 as int;
        let q1 = c[p].1.0 as int;
        let q2 = e[t].0.0 as int;
        lemma_pair_dart_concat(c, e, 2 * t);
        lemma_pair_dart_concat(c, e, 2 * p + 1);
        lemma_pair_dart_concat(c, e, 2 * n + 2 * t);
        lemma_pair_dart_concat(c, e, 2 * n + 2 * t + 1);
        assert(pair_dart(c + e, 2 * t).0 == d1);
        assert(pair_dart(c + e, 2 * p + 1).0 == q1);
        assert(pair_dart(c + e, 2 * n + 2 * t).0 == q2);
        assert(pair_dart(c + e, 2 * n + 2 * t + 1).0 == d2);
        assert forall|k: int| 0 <= k < n implies {
            &&& 0 <= (#[trigger] c[k]).0.0 < pre.len()
            &&& 0 <= c[k].1.0 < pre.len()
            &&& 0 <= e[k].0.0 < pre.len()
            &&& 0 <= e[k].1.0 < pre.len()
        } by {
            assert(pre.ray_state(o, c, e, t, k));
        }
        assert forall|x: int| 0 <= x < o.len() && !pair_set(c + e).contains(x) implies {
            &&& (#[trigger] fin.darts@[x]).init == o.darts@[x].init
            &&& fin.darts@[x].links@ == o.darts@[x].links@
            &&& forall|j: int| 0 <= j < N ==> #[trigger] fin.alpha(x, j) == o.alpha(x, j)
        } by {
            assert(pair_set(c + e).contains(d1));
            assert(pair_set(c + e).contains(d2));
            assert(pair_set(c + e).contains(q1));
            assert(pair_set(c + e).contains(q2));
            assert forall|j: int| 0 <= j < N implies #[trigger] fin.alpha(x, j) == o.alpha(x, j) by {
                assert(fin.alpha(x, j) == pre.alpha(x, j));
            }
        }
        assert forall|k: int| 0 <= k < n implies #[trigger] fin.ray_state(o, c, e, t + 1, k) by {
            assert(pre.ray_state(o, c, e, t, k));
            let pk = prev_pair(k, n);
            let qk = next_pair(k, n);
            let a0 = c[k].0.0 as int;
            let a1 = c[k].1.0 as int;
            let b0 = e[k].0.0 as int;
            let b1 = e[k].1.0 as int;
            lemma_pair_dart_concat(c, e, 2 * k);
            lemma_pair_dart_concat(c, e, 2 * k + 1);
            lemma_pair_dart_concat(c, e, 2 * n + 2 * k);
            lemma_pair_dart_concat(c, e, 2 * n + 2 * k + 1);
            assert(pair_dart(c + e, 2 * k).0 == a0);
            assert(pair_dart(c + e, 2 * k + 1).0 == a1);
            assert(pair_dart(c + e, 2 * n + 2 * k).0 == b0);
            assert(pair_dart(c + e, 2 * n + 2 * k + 1).0 == b1);
            assert((k == p) == (qk == t));
            assert(fin.darts@[a0].init == pre.darts@[a0].init);
            assert(fin.darts@[a1].init == pre.darts@[a1].init);
            assert(fin.darts@[b0].init == pre.darts@[b0].init);
            assert(fin.darts@[b1].init == pre.darts@[b1].init);
            assert(fin.alpha(a0, 1) == pre.alpha(a0, 1));
            assert(fin.alpha(a1, 1) == pre.alpha(a1, 1));
            assert(fin.alpha(b0, 1) == pre.alpha(b0, 1));
            assert(fin.alpha(b1, 1) == pre.alpha(b1, 1));
            assert(fin.alpha(a0, 2) == pre.alpha(a0, 2));
            assert(fin.alpha(a1, 2) == pre.alpha(a1, 2));
            assert(fin.alpha(b0, 2) == pre.alpha(b0, 2));
            assert(fin.alpha(b1, 2) == pre.alpha(b1, 2));
        }
        assert forall|k: int, j: int|
            #![trigger fin.alpha(c[k].0.0 as int, j)]
            #![trigger fin.alpha(c[k].1.0 as int, j)]
            #![trigger fin.alpha(e[k].0.0 as int, j)]
            #![trigger fin.alpha(e[k].1.0 as int, j)]
            0 <= k < n && 3 <= j < N implies {
                &&& fin.alpha(c[k].0.0 as int, j) == (if j < fin.ndims { c[k].0.0 as int } else { 0 })
                &&& fin.alpha(c[k].1.0 as int, j) == (if j < fin.ndims { c[k].1.0 as int } else { 0 })
                &&& fin.alpha(e[k].0.0 as int, j) == (if j < fin.ndims { e[k].0.0 as int } else { 0 })
                &&& fin.alpha(e[k].1.0 as int, j) == (if j < fin.ndims { e[k].1.0 as int } else { 0 })
            } by {
            assert(pre.alpha(c[k].0.0 as int, j) == (if j < pre.ndims { c[k].0.0 as int } else { 0 }));
        }
    }
}

/// Taking the darts of pairs two by two gives the pairs back.
pub proof fn lemma_pairs_of_darts(c: Seq<(DartIndex, DartIndex)>)
    ensures
        pairs_of(pair_darts(c)) == c,
{
    let d = pair_darts(c);
    assert(d.len() / 2 == c.len());
    assert forall|k: int| 0 <= k < c.len() implies #[trigger] pairs_of(d)[k] == c[k] by {
        assert(d[2 * k] == pair_dart(c, 2 * k));
        assert(d[2 * k + 1] == pair_dart(c, 2 * k + 1));
    }
    assert(pairs_of(d) =~= c);
}

impl<const N: usize, const NA: usize, const NL: usize> NGMap<N, NA, NL> {
    /// Creates a star of `nrays` rays: `nrays` vertices (pairs of darts
    /// alpha(1)-linked) joined in a circle along alpha(2), the second dart
    /// of each vertex to the first dart of the next. Without ends, returns
    /// these vertices (see `pairs_joined`). With ends, also creates `nrays`
    /// pairs of darts alpha(2)-linked and attaches end `k` along alpha(0):
    /// the first dart of vertex `k` to the second dart of end `k`, the
    /// second dart of the previous vertex to the first dart of end `k`; then
    /// returns the ends (see `star_state`). The darts are the next indices
    /// that the dart allocator hands out, the vertices first. What is stated
    /// of the links holds while the map's freed indices are out of use; the
    /// other darts then keep their links.
    pub fn create_star(&mut self, nrays: usize, with_ends: bool) -> (r: Vec<(DartIndex, DartIndex)>)
        requires
            old(self).wf(),
            2 < old(self).ndims,
            old(self).len() + 4 * nrays + 3 < usize::MAX,
            old(self).attribute_room(8 * N * nrays),
        ensures
            final(self).wf(),
            r@.len() == nrays,
            final(self).len() <= old(self).len() + 4 * nrays,
            final(self).grown_from(old(self)),
            final(self).room_used(old(self), 8 * N * nrays),
            !with_ends ==> {
                &&& (pair_darts(r@), final(self).dart_index_allocator.count, final(self).dart_index_allocator.nodes@)
                    == reserve_run(old(self).dart_index_allocator.count, old(self).dart_index_allocator.nodes@, 2 * nrays as nat)
                &&& old(self).free_indices_unused() ==> final(self).pairs_joined(old(self), r@, 1, 2, nrays as int, true)
            },
            with_ends ==> {
                let run = reserve_run(old(self).dart_index_allocator.count, old(self).dart_index_allocator.nodes@, 4 * nrays as nat);
                &&& pair_darts(r@) == run.0.subrange(2 * nrays as int, 4 * nrays as int)
                &&& final(self).dart_index_allocator.count == run.1
                &&& final(self).dart_index_allocator.nodes@ == run.2
                &&& old(self).free_indices_unused() ==> final(self).star_state(old(self), pairs_of(run.0.subrange(0, 2 * nrays as int)), r@, nrays as int)
            },
            old(self).free_indices_unused() && old(self).involutive() ==> final(self).involutive(),
    {
        let ghost o = *old(self);
        proof {
            assert(4 * N * nrays + 4 * N * nrays == 8 * N * nrays) by (nonlinear_arith);
            assert(4 * N * nrays <= 8 * N * nrays) by (nonlinear_arith);
        }
        let core = self.create_star_core(nrays);
        let ghost m = *self;
        if !with_ends {
            proof {
                assert forall|s: int| 0 <= s < NA implies #[trigger] self.slot_count(s) <= o.slot_count(s) + 8 * N * nrays by {
                    assert(self.slot_count(s) <= o.slot_count(s) + 4 * N * nrays);
                }
            }
            return core;
        }
        proof {
            assert(3 * N * nrays + N * nrays == 4 * N * nrays) by (nonlinear_arith);
            m.lemma_room_left(&o, 4 * N * nrays, 4 * N * nrays);
        }
        let edges = self.create_pairs(nrays, 2);
        let ghost m2 = *self;
        proof {
            m2.lemma_room_used_trans(&m, &o, 4 * N * nrays, 3 * N * nrays);
            assert(4 * N * nrays + 3 * N * nrays == 7 * N * nrays) by (nonlinear_arith);
            assert(7 * N * nrays + N * nrays == 8 * N * nrays) by (nonlinear_arith);
            m2.lemma_room_left(&o, 7 * N * nrays, N * nrays);
            if o.free_indices_unused() {
                Self::lemma_star_start(&m, &m2, &o, core@, edges@);
            }
            lemma_reserve_run_split(o.dart_index_allocator.count, o.dart_index_allocator.nodes@, 2 * nrays as nat, 2 * nrays as nat);
            let run = reserve_run(o.dart_index_allocator.count, o.dart_index_allocator.nodes@, 4 * nrays as nat);
            assert((2 * nrays + 2 * nrays) as nat == 4 * nrays as nat);
            assert(run.0.subrange(2 * nrays as int, 4 * nrays as int) =~= pair_darts(edges@));
            assert(run.0.subrange(0, 2 * nrays as int) =~= pair_darts(core@));
            lemma_pairs_of_darts(core@);
            assert forall|s: int| 0 <= s < NA implies #[trigger] self.slot_count(s) <= m2.slot_count(s) + N * 0 by {}
        }
        let mut k: usize = 0;
        while k < nrays
            invariant
                self.wf(),
                k <= nrays,
                core@.len() == nrays,
                edges@.len() == nrays,
                2 < self.ndims,
                o.len() <= m2.len(),
                forall|i: int| 0 <= i < nrays ==> (#[trigger] core@[i]).0.0 < self.len() && core@[i].1.0 < self.len(),
                forall|i: int| 0 <= i < nrays ==> (#[trigger] edges@[i]).0.0 < self.len() && edges@[i].1.0 < self.len(),
                m2.attribute_room(N * nrays),
                self.len() == m2.len(),
                self.grown_from(&m2),
                self.dart_index_allocator == m2.dart_index_allocator,
                self.room_used(&m2, N * k),
                o.free_indices_unused() ==> self.star_state(&o, core@, edges@, k as int),
                o.free_indices_unused() && o.involutive() ==> self.involutive(),
            decreases nrays - k,
        {
            let ghost pre = *self;
            proof {
                assert(N * k + N <= N * nrays) by (nonlinear_arith)
                    requires k < nrays;
                pre.lemma_room_left(&m2, N * k, N as int);
                if o.free_indices_unused() {
                    Self::lemma_star_ready(&pre, &o, core@, edges@, k as int);
                }
            }
            let p: usize = if k > 0 { k - 1 } else { nrays - 1 };
            self.sew_swapped(core[k].0, edges[k].1, 0, Ghost(core@[p as int].1.0 as int), Ghost(edges@[k as int].0.0 as int), Ghost(0));
            proof {
                let fin = *self;
                fin.lemma_room_used_trans(&pre, &m2, N * k, N as int);
                assert(N * k + N == N * (k + 1)) by (nonlinear_arith);
                if o.free_indices_unused() {
                    Self::lemma_star_step(&pre, &fin, &o, core@, edges@, k as int);
                }
            }
            k = k + 1;
        }
        proof {
            self.lemma_room_used_trans(&m2, &o, 7 * N * nrays, N * nrays);
            assert(7 * N * nrays + N * nrays == 8 * N * nrays) by (nonlinear_arith);
        }
        edges
    }
}

impl<const N: usize, const NA: usize, const NL: usize> NGMap<N, NA, NL> {
    /// This map is `old` after `insert` with the pairs `assoc` along
    /// alpha(`idim`), as its contract states: glued if every pair passes
    /// the check, unchanged otherwise.
    pub open spec fn inserted_from(&self, old: &Self, assoc: Seq<(DartIndex, DartIndex)>, idim: int) -> bool {
        let ok = forall|i: int| 0 <= i < assoc.len() ==> #[trigger] old.insert_pair_ok(assoc, idim, i);
        &&& self.wf()
        &&& !ok ==> *self == *old
        &&& ok ==> self.only_alpha_changed(old, idim)
        &&& ok ==> forall|x: int| 0 <= x < old.len() ==> #[trigger] self.alpha(x, idim) == old.inserted_alpha(assoc, idim, x, assoc.len() as int)
    }

    /// The pairs that glue end `k` of the star to vertex `k` of the ring.
    pub open spec fn pizza_assoc(star: Seq<(DartIndex, DartIndex)>, ring: Seq<(DartIndex, DartIndex)>, k: int) -> Seq<(DartIndex, DartIndex)> {
        seq![(star[k].0, ring[k].0), (star[k].1, ring[k].1)]
    }

    /// A star with ends (see `create_star`) and a ring of as many vertices
    /// (see `create_ring`), each end of the star inserted in turn along
    /// alpha(1) into the vertex of the ring at the same position. Returns
    /// the vertices of the ring. The steps are those of the shapes'
    /// contracts, which hold while the freed dart indices are out of use.
    pub fn create_vertex_pizza(&mut self, nslices: usize) -> (r: Vec<(DartIndex, DartIndex)>)
        requires
            old(self).wf(),
            old(self).free_indices_unused(),
            nslices > 0,
            2 < old(self).ndims,
            old(self).len() + 6 * nslices + 6 < usize::MAX,
            old(self).attribute_room(12 * N * nslices),
        ensures
            final(self).wf(),
            r@.len() == nslices,
            exists|core: Seq<(DartIndex, DartIndex)>, star: Seq<(DartIndex, DartIndex)>, s1: Self, states: Seq<Self>| {
                &&& star.len() == nslices
                &&& #[trigger] s1.star_state(old(self), core, star, nslices as int)
                &&& states.len() == nslices + 1
                &&& #[trigger] states[0].pairs_joined(&s1, r@, 1, 0, nslices as int, true)
                &&& forall|k: int| 0 <= k < nslices ==> #[trigger] states[k + 1].inserted_from(&states[k], Self::pizza_assoc(star, r@, k), 1)
                &&& states[nslices as int] == *final(self)
            },
    {
        let ghost o = *old(self);
        proof {
            assert(8 * N * nslices <= 12 * N * nslices) by (nonlinear_arith);
            assert forall|s: int|
                #![trigger o.attribute_index_allocators@[s]]
                0 <= s < NA && o.attribute_index_allocators@[s] is Some implies o.attribute_index_allocators@[s].unwrap().count + 8 * N * nslices <= usize::MAX by {}
        }
        let star = self.create_star(nslices, true);
        let ghost s1 = *self;
        let ghost core = pairs_of(reserve_run(o.dart_index_allocator.count, o.dart_index_allocator.nodes@, 4 * nslices as nat).0.subrange(0, 2 * nslices as int));
        proof {
            assert(8 * N * nslices + 4 * N * nslices == 12 * N * nslices) by (nonlinear_arith);
            s1.lemma_room_left(&o, 8 * N * nslices, 4 * N * nslices);
            assert(s1.star_state(&o, core, star@, nslices as int));
        }
        let ring = self.create_ring(nslices);
        let ghost s2 = *self;
        proof {
            assert(s2.pairs_joined(&s1, ring@, 1, 0, nslices as int, true));
            assert forall|k: int| 0 <= k < nslices implies {
                &&& (#[trigger] star@[k]).0.0 < s2.len() && star@[k].1.0 < s2.len()
                &&& star@[k].0 != star@[k].1
                &&& s2.alpha(star@[k].0.0 as int, 2) == star@[k].1.0
                &&& s2.alpha(star@[k].1.0 as int, 2) == star@[k].0.0
                &&& ring@[k].0.0 < s2.len() && ring@[k].1.0 < s2.len()
            } by {
                assert(s1.ray_state(&o, core, star@, nslices as int, k));
                assert(pair_dart(core + star@, 2 * (k + nslices)) == star@[k].0);
                assert(pair_dart(core + star@, 2 * (k + nslices) + 1) == star@[k].1);
                assert(s2.pair_state(&s1, ring@, 1, 0, nslices as int, true, k));
                let x0 = star@[k].0.0 as int;
                let x1 = star@[k].1.0 as int;
                assert(!pair_set(ring@).contains(x0)) by {
                    if pair_set(ring@).contains(x0) {
                        let i = choose|i: int| 0 <= i < 2 * ring@.len() && (#[trigger] pair_dart(ring@, i)).0 == x0;
                        assert(s2.pair_state(&s1, ring@, 1, 0, nslices as int, true, i / 2));
                    }
                }
                assert(!pair_set(ring@).contains(x1)) by {
                    if pair_set(ring@).contains(x1) {
                        let i = choose|i: int| 0 <= i < 2 * ring@.len() && (#[trigger] pair_dart(ring@, i)).0 == x1;
                        assert(s2.pair_state(&s1, ring@, 1, 0, nslices as int, true, i / 2));
                    }
                }
            }
        }
        let ghost mut states: Seq<Self> = seq![s2];
        let mut k: usize = 0;
        while k < nslices
            invariant
                self.wf(),
                s2.wf(),
                k <= nslices,
                star@.len() == nslices,
                ring@.len() == nslices,
                self.len() == s2.len(),
                self.ndims == s2.ndims,
                2 < self.ndims,
                forall|x: int| 0 <= x < s2.len() ==> #[trigger] self.alpha(x, 2) == s2.alpha(x, 2),
                forall|i: int| 0 <= i < nslices ==> {
                    &&& (#[trigger] star@[i]).0.0 < s2.len() && star@[i].1.0 < s2.len()
                    &&& star@[i].0 != star@[i].1
                    &&& s2.alpha(star@[i].0.0 as int, 2) == star@[i].1.0
                    &&& s2.alpha(star@[i].1.0 as int, 2) == star@[i].0.0
                    &&& ring@[i].0.0 < s2.len() && ring@[i].1.0 < s2.len()
                },
                states.len() == k + 1,
                states[0] == s2,
                states[k as int] == *self,
                forall|i: int| 0 <= i < k ==> #[trigger] states[i + 1].inserted_from(&states[i], Self::pizza_assoc(star@, ring@, i), 1),
            decreases nslices - k,
        {
            let assoc: Vec<(DartIndex, DartIndex)> = vec![(star[k].0, ring[k].0), (star[k].1, ring[k].1)];
            let ghost pre = *self;
            let ghost a = Self::pizza_assoc(star@, ring@, k as int);
            proof {
                assert(assoc@ =~= a);
                assert(star@[k as int].0.0 != star@[k as int].1.0) by {
                    if star@[k as int].0.0 == star@[k as int].1.0 {
                        assert(star@[k as int].0 == star@[k as int].1);
                    }
                }
                assert(keys_distinct(a));
                assert(self.alpha(a[0].0.0 as int, 2) == a[1].0.0);
                assert(self.alpha(a[1].0.0 as int, 2) == a[0].0.0);
                assert(self.insert_walk(self.alpha(a[0].0.0 as int, 2), 1, 0) == a[1].0.0);
                assert(self.insert_walk(self.alpha(a[1].0.0 as int, 2), 1, 0) == a[0].0.0);
                assert(crate::gmap::insert::is_key(a, a[1].0.0 as int));
                assert(crate::gmap::insert::is_key(a, a[0].0.0 as int));
                assert(self.insert_walk_ends(a, self.alpha(a[0].0.0 as int, 2), 1, 0));
                assert(self.insert_walk_ends(a, self.alpha(a[1].0.0 as int, 2), 1, 0));
                assert(forall|i: int| 0 <= i < a.len() ==> (#[trigger] a[i]).0.0 < self.len() && a[i].1.0 < self.len());
                assert forall|i: int| 0 <= i < a.len()
                    && (forall|kk: int| 0 <= kk < i ==> #[trigger] self.insert_pair_ok(a, 1, kk))
                    && #[trigger] self.insert_pair_links(a, 1, i)
                    implies exists|n: nat| #[trigger] self.insert_walk_ends(a, self.alpha(a[i].0.0 as int, 1int + 1), 1, n) by {
                    if i == 0 {
                        assert(self.insert_walk_ends(a, self.alpha(a[0].0.0 as int, 1int + 1), 1, 0));
                    } else {
                        assert(self.insert_walk_ends(a, self.alpha(a[1].0.0 as int, 1int + 1), 1, 0));
                    }
                }
                assert(self.insert_check_defined(a, 1));
            }
            let _ = self.insert(&ring[k].0, &star[k].0, 1, &assoc);
            proof {
                assert(self.inserted_from(&pre, a, 1));
                let ghost prev_states = states;
                states = states.push(*self);
                assert forall|x: int| 0 <= x < s2.len() implies #[trigger] self.alpha(x, 2) == s2.alpha(x, 2) by {
                    assert(pre.alpha(x, 2) == s2.alpha(x, 2));
                }
                assert forall|i: int| 0 <= i < k + 1 implies #[trigger] states[i + 1].inserted_from(&states[i], Self::pizza_assoc(star@, ring@, i), 1) by {
                    if i < k {
                        assert(states[i + 1] == prev_states[i + 1] && states[i] == prev_states[i]);
                    } else {
                        assert(states[i] == pre);
                    }
                }
            }
            k = k + 1;
        }
        ring
    }
}

impl<const N: usize, const NA: usize, const NL: usize> NGMap<N, NA, NL> {
    /// With the darts of `assoc` all distinct, gluing its first `m` pairs
    /// links each key to its partner and each partner to its key, and
    /// leaves every other dart as it was.
    pub proof fn lemma_inserted_alpha_distinct(&self, assoc: Seq<(DartIndex, DartIndex)>, idim: int, x: int, m: int)
        requires
            pairs_distinct(assoc),
            0 <= m <= assoc.len(),
        ensures
            forall|i: int| 0 <= i < m && x == (#[trigger] assoc[i]).0.0 ==> self.inserted_alpha(assoc, idim, x, m) == assoc[i].1.0,
            forall|i: int| 0 <= i < m && x == (#[trigger] assoc[i]).1.0 ==> self.inserted_alpha(assoc, idim, x, m) == assoc[i].0.0,
            (forall|i: int| 0 <= i < m ==> x != (#[trigger] assoc[i]).0.0 && x != assoc[i].1.0) ==> self.inserted_alpha(assoc, idim, x, m) == self.alpha(x, idim),
        decreases m,
    {
        if m > 0 {
            self.lemma_inserted_alpha_distinct(assoc, idim, x, m - 1);
            assert forall|i: int| 0 <= i < m - 1 implies (#[trigger] assoc[i]).0.0 != assoc[m - 1].0.0 && assoc[i].0.0 != assoc[m - 1].1.0
                && assoc[i].1.0 != assoc[m - 1].0.0 && assoc[i].1.0 != assoc[m - 1].1.0 by {
                assert(pair_dart(assoc, 2 * i) == assoc[i].0);
                assert(pair_dart(assoc, 2 * i + 1) == assoc[i].1);
                assert(pair_dart(assoc, 2 * (m - 1)) == assoc[m - 1].0);
                assert(pair_dart(assoc, 2 * (m - 1) + 1) == assoc[m - 1].1);
            }
            assert(assoc[m - 1].0.0 != assoc[m - 1].1.0) by {
                assert(pair_dart(assoc, 2 * (m - 1)) == assoc[m - 1].0);
                assert(pair_dart(assoc, 2 * (m - 1) + 1) == assoc[m - 1].1);
            }
        }
    }

    /// Insertion keeps the alpha links involutions. Let this map come from
    /// `before` by `insert(_, _, idim, assoc)`, as its contract states,
    /// where the links of `before` are involutions, `idim` is below the
    /// dimension, and the keys and partners of `assoc` are distinct darts
    /// in use. Then the links of this map are involutions: each key is
    /// linked to its partner, and the check that insertion makes sends the
    /// old neighbour of each partner to another partner.
    pub proof fn lemma_insert_keeps_involutive(&self, before: &Self, assoc: Seq<(DartIndex, DartIndex)>, idim: int)
        requires
            before.wf(),
            before.involutive(),
            0 <= idim < before.ndims,
            before.insert_check_defined(assoc, idim),
            pairs_distinct(assoc),
            forall|i: int| 0 <= i < assoc.len() ==> before.is_init((#[trigger] assoc[i]).0.0 as int) && before.is_init(assoc[i].1.0 as int),
            self.inserted_from(before, assoc, idim),
        ensures
            self.involutive(),
    {
        let m = assoc.len() as int;
        if forall|i: int| 0 <= i < m ==> #[trigger] before.insert_pair_ok(assoc, idim, i) {
            assert forall|x: int, k: int| 0 <= x < self.len() && self.is_init(x) && 0 <= k < self.ndims implies {
                let e = #[trigger] self.alpha(x, k);
                &&& 0 <= e < self.len()
                &&& self.is_init(e)
                &&& self.alpha(e, k) == x
            } by {
                assert(self.darts@[x].init == before.darts@[x].init);
                if k != idim {
                    let e = before.alpha(x, k);
                    assert(0 <= e < before.len() && before.is_init(e));
                    assert(self.darts@[e].init == before.darts@[e].init);
                } else {
                    before.lemma_inserted_alpha_distinct(assoc, idim, x, m);
                    if exists|i: int| 0 <= i < m && x == (#[trigger] assoc[i]).0.0 {
                        let i = choose|i: int| 0 <= i < m && x == (#[trigger] assoc[i]).0.0;
                        let e = assoc[i].1.0 as int;
                        before.lemma_inserted_alpha_distinct(assoc, idim, e, m);
                        assert(self.darts@[e].init == before.darts@[e].init);
                    } else if exists|i: int| 0 <= i < m && x == (#[trigger] assoc[i]).1.0 {
                        let i = choose|i: int| 0 <= i < m && x == (#[trigger] assoc[i]).1.0;
                        let e = assoc[i].0.0 as int;
                        before.lemma_inserted_alpha_distinct(assoc, idim, e, m);
                        assert(self.darts@[e].init == before.darts@[e].init);
                    } else {
                        let e = before.alpha(x, idim);
                        assert(self.alpha(x, idim) == e);
                        assert(0 <= e < before.len() && before.is_init(e) && before.alpha(e, idim) == x);
                        assert(self.darts@[e].init == before.darts@[e].init);
                        before.lemma_inserted_alpha_distinct(assoc, idim, e, m);
                        if exists|i: int| 0 <= i < m && e == (#[trigger] assoc[i]).0.0 {
                            let i = choose|i: int| 0 <= i < m && e == (#[trigger] assoc[i]).0.0;
                            assert(before.insert_pair_ok(assoc, idim, i));
                            assert(before.free(e, idim));
                        }
                        if exists|i: int| 0 <= i < m && e == (#[trigger] assoc[i]).1.0 {
                            let i = choose|i: int| 0 <= i < m && e == (#[trigger] assoc[i]).1.0;
                            assert(before.insert_pair_ok(assoc, idim, i));
                            assert(forall|kk: int| 0 <= kk < i ==> #[trigger] before.insert_pair_ok(assoc, idim, kk));
                            assert(before.insert_pair_links(assoc, idim, i));
                            let start = before.alpha(assoc[i].0.0 as int, idim + 1);
                            assert(exists|nn: nat| #[trigger] before.insert_walk_ends(assoc, start, idim, nn));
                            let nn = choose|nn: nat| #[trigger] before.insert_walk_ends(assoc, start, idim, nn);
                            let key = before.insert_walk(start, idim, nn);
                            assert(crate::gmap::insert::is_key(assoc, key));
                            let q = choose|q: int| 0 <= q < assoc.len() && (#[trigger] assoc[q]).0.0 == key;
                            assert(crate::gmap::insert::partner(assoc, key) == x);
                            let q2 = choose|q2: int| 0 <= q2 < assoc.len() && (#[trigger] assoc[q2]).0.0 == key;
                            assert(assoc[q2].1.0 == x);
                        }
                    }
                }
            }
        }
    }
}

} // verus!
