//! Copying another map into this one: each dart in use of the other map
//! gets a new dart here, linked as its source dart is, with fresh attribute
//! indices for the copied cells.

use vstd::prelude::*;
use crate::index::{DartIndex, AttributeIndex};
use crate::index_allocator::{AllocationNode, reserve_spec, valid_from, allocated_from};
use crate::iterators::{ids, to_ints};
use crate::orbits::{seq_without, get_seq};
use crate::dart::{repeat, vec_repeat};
use super::{NGMap, AttributeAction};

verus! {

broadcast use vstd::std_specs::hash::group_hash_axioms;

/// The indices handed out by `m` reservations in turn, with the counter
/// and runs left.
pub open spec fn reserve_run(count: usize, nodes: Seq<AllocationNode>, m: nat) -> (Seq<DartIndex>, usize, Seq<AllocationNode>)
    decreases m,
{
    if m == 0 {
        (Seq::empty(), count, nodes)
    } else {
        let (s, c, n) = reserve_run(count, nodes, (m - 1) as nat);
        let (i, c2, n2) = reserve_spec(c, n);
        (s.push(DartIndex(i)), c2, n2)
    }
}

/// Reserving `m` indices in turn from a valid allocator hands out `m`
/// distinct indices, none of them in use before, and leaves them in use.
pub proof fn lemma_reserve_run_fresh(count: usize, nodes: Seq<AllocationNode>, start: int, m: nat)
    requires
        valid_from(count, nodes, start),
        count + m < usize::MAX,
    ensures
        ({
            let (s, c2, n2) = reserve_run(count, nodes, m);
            &&& s.len() == m
            &&& forall|i: int, j: int| 0 <= i < j < m ==> (#[trigger] s[i]).0 != (#[trigger] s[j]).0
            &&& forall|i: int| 0 <= i < m ==> start <= (#[trigger] s[i]).0 && !allocated_from(count, nodes, start).contains(s[i].0 as int)
            &&& forall|i: int| 0 <= i < m ==> allocated_from(c2, n2, start).contains((#[trigger] s[i]).0 as int)
            &&& allocated_from(count, nodes, start).subset_of(allocated_from(c2, n2, start))
            &&& valid_from(c2, n2, start)
            &&& c2 <= count + m
        }),
    decreases m,
{
    if m > 0 {
        lemma_reserve_run_fresh(count, nodes, start, (m - 1) as nat);
        let (s, c, n) = reserve_run(count, nodes, (m - 1) as nat);
        let (s2, c2, n2) = reserve_run(count, nodes, m);
        crate::index_allocator::lemma_reserve_law(c, n, start);
        let (r, c3, n3) = reserve_spec(c, n);
        assert(s2 == s.push(DartIndex(r)));
        assert forall|i: int| 0 <= i < m - 1 implies (#[trigger] s2[i]).0 != r by {
            assert(s2[i] == s[i]);
            assert(allocated_from(c, n, start).contains(s[i].0 as int));
        }
        assert forall|i: int, j: int| 0 <= i < j < m implies (#[trigger] s2[i]).0 != (#[trigger] s2[j]).0 by {
            if j < m - 1 {
                assert(s2[i] == s[i] && s2[j] == s[j]);
            }
        }
        assert forall|i: int| 0 <= i < m implies start <= (#[trigger] s2[i]).0 && !allocated_from(count, nodes, start).contains(s2[i].0 as int) by {
            if i < m - 1 {
                assert(s2[i] == s[i]);
            } else {
                assert(s2[i].0 == r);
            }
        }
        assert forall|i: int| 0 <= i < m implies allocated_from(c2, n2, start).contains((#[trigger] s2[i]).0 as int) by {
            if i < m - 1 {
                assert(s2[i] == s[i]);
            }
        }
    }
}

/// The last position of dart `d` in `s` before `m`, or -1.
pub open spec fn last_pos(s: Seq<DartIndex>, d: int, m: int) -> int
    decreases m,
{
    if m <= 0 {
        -1
    } else if s[m - 1].0 == d {
        m - 1
    } else {
        last_pos(s, d, m - 1)
    }
}

/// `last_pos` finds a position of `d`, or `d` is not there.
pub proof fn lemma_last_pos(s: Seq<DartIndex>, d: int, m: int)
    requires
        0 <= m <= s.len(),
    ensures
        -1 <= last_pos(s, d, m) < m,
        last_pos(s, d, m) >= 0 ==> s[last_pos(s, d, m)].0 == d,
        last_pos(s, d, m) < 0 ==> forall|i: int| 0 <= i < m ==> #[trigger] s[i].0 != d,
    decreases m,
{
    if m > 0 {
        lemma_last_pos(s, d, m - 1);
    }
}


/// `last_pos` reads only the first `m` entries.
pub proof fn lemma_last_pos_prefix(s1: Seq<DartIndex>, s2: Seq<DartIndex>, d: int, m: int)
    requires
        0 <= m <= s1.len(),
        m <= s2.len(),
        forall|i: int| 0 <= i < m ==> s1[i] == s2[i],
    ensures
        last_pos(s1, d, m) == last_pos(s2, d, m),
    decreases m,
{
    if m > 0 {
        lemma_last_pos_prefix(s1, s2, d, m - 1);
    }
}


/// The darts numbered by `s`.
pub open spec fn as_darts(s: Seq<int>) -> Seq<DartIndex> {
    s.map_values(|x: int| DartIndex(x as usize))
}

/// The new dart that stands for dart `x` of the copied map: the one made
/// for it if `x` is among `olds`, dart 0 otherwise.
pub open spec fn copy_target(olds: Seq<int>, news: Seq<DartIndex>, x: int) -> int {
    if exists|t: int| 0 <= t < olds.len() && olds[t] == x {
        news[choose|t: int| 0 <= t < olds.len() && olds[t] == x].0 as int
    } else {
        0
    }
}

/// A listing whose numbers are those of `s` is `as_darts(s)`.
pub proof fn lemma_as_darts(r: Seq<DartIndex>, s: Seq<int>)
    requires
        to_ints(r) == s,
    ensures
        r == as_darts(s),
{
    assert forall|i: int| 0 <= i < r.len() implies r[i] == as_darts(s)[i] by {
        assert(to_ints(r)[i] == r[i].0);
    }
    assert(r =~= as_darts(s));
}

impl<const N: usize, const NA: usize, const NL: usize> NGMap<N, NA, NL> {
    /// The attribute index that the `p`-th of a run of new darts gets in
    /// slot `s` when created from `old`.
    pub open spec fn create_attr(&self, s: int, p: int) -> AttributeIndex {
        let x = self.idims_in_slot(s, self.ndims as int);
        if self.slot_live(s) && x > 0 {
            AttributeIndex((self.slot_count(s) + (p + 1) * x - 1) as usize)
        } else {
            AttributeIndex(usize::MAX)
        }
    }

    /// Dart `d` is the `p`-th of a run of new darts created from `old`.
    pub open spec fn fresh_from(&self, old: &Self, d: int, p: int) -> bool {
        &&& self.darts@[d].init
        &&& forall|k: int| 0 <= k < N ==> #[trigger] self.alpha(d, k) == (if k < old.ndims { d } else { 0 })
        &&& self.darts@[d].links@ == repeat(DartIndex(d as usize), NL as nat)
        &&& forall|s: int| 0 <= s < NA ==> #[trigger] self.attr(d, s) == old.create_attr(s, p)
    }

    /// Counting slot occupants depends only on the slot map and on which
    /// slots are live.
    proof fn lemma_idims_same(&self, other: &Self, s: int, k: int)
        requires
            self.attribute_container_indices@ == other.attribute_container_indices@,
            forall|t: int| 0 <= t < NA ==> (#[trigger] self.attribute_index_allocators@[t] is Some) == (other.attribute_index_allocators@[t] is Some),
        ensures
            self.idims_in_slot(s, k) == other.idims_in_slot(s, k),
        decreases k,
    {
        if k > 0 {
            self.lemma_idims_same(other, s, k - 1);
        }
    }

    /// At most `k` dimensions below `k` share a slot.
    pub(crate) proof fn lemma_idims_bound(&self, s: int, k: int)
        requires
            k >= 0,
        ensures
            self.idims_in_slot(s, k) <= k,
        decreases k,
    {
        if k > 0 {
            self.lemma_idims_bound(s, k - 1);
        }
    }

    /// Creates `m` new darts in turn (see `create_dart`) and returns them.
    pub(crate) fn copy_create(&mut self, m: usize) -> (news: Vec<DartIndex>)
        requires
            old(self).wf(),
            old(self).len() + m + 1 < usize::MAX,
            old(self).attribute_room(N * m),
        ensures
            final(self).wf(),
            news@.len() == m,
            (news@, final(self).dart_index_allocator.count, final(self).dart_index_allocator.nodes@)
                == reserve_run(old(self).dart_index_allocator.count, old(self).dart_index_allocator.nodes@, m as nat),
            final(self).len() >= old(self).len(),
            final(self).len() <= old(self).len() + m,
            forall|i: int| 0 <= i < m ==> 1 <= (#[trigger] news@[i]).0 < final(self).len(),
            forall|d: int| #![trigger last_pos(news@, d, m as int)] 0 <= d < final(self).len() ==> {
                &&& last_pos(news@, d, m as int) >= 0 ==> final(self).fresh_from(old(self), d, last_pos(news@, d, m as int))
                &&& last_pos(news@, d, m as int) < 0 ==> d < old(self).len() && final(self).dart_unchanged(old(self), d)
            },
            final(self).ndims == old(self).ndims,
            final(self).marks@ == old(self).marks@,
            final(self).attribute_container_indices@ == old(self).attribute_container_indices@,
            final(self).attribute_actions@ == old(self).attribute_actions@,
            final(self).attribute_index_allocators@.len() == NA,
            forall|s: int| 0 <= s < NA ==> (#[trigger] final(self).attribute_index_allocators@[s] is Some) == old(self).slot_live(s),
            forall|s: int| 0 <= s < NA ==> #[trigger] final(self).slot_count(s) == old(self).slot_count(s)
                + (if old(self).slot_live(s) { m * old(self).idims_in_slot(s, old(self).ndims as int) } else { 0 }),
    {
        let ghost o = *old(self);
        let mut news: Vec<DartIndex> = Vec::new();
        let mut t: usize = 0;
        while t < m
            invariant
                self.wf(),
                o.wf(),
                t <= m,
                o.len() + m + 1 < usize::MAX,
                o.attribute_room(N * m),
                news@.len() == t,
                (news@, self.dart_index_allocator.count, self.dart_index_allocator.nodes@)
                    == reserve_run(o.dart_index_allocator.count, o.dart_index_allocator.nodes@, t as nat),
                o.len() <= self.len() <= o.len() + t,
                forall|i: int| 0 <= i < t ==> 1 <= (#[trigger] news@[i]).0 < self.len(),
                forall|d: int| #![trigger last_pos(news@, d, t as int)] 0 <= d < self.len() ==> {
                    &&& last_pos(news@, d, t as int) >= 0 ==> self.fresh_from(&o, d, last_pos(news@, d, t as int))
                    &&& last_pos(news@, d, t as int) < 0 ==> d < o.len() && self.dart_unchanged(&o, d)
                },
                self.ndims == o.ndims,
                self.marks@ == o.marks@,
                self.attribute_container_indices@ == o.attribute_container_indices@,
                self.attribute_actions@ == o.attribute_actions@,
                self.attribute_index_allocators@.len() == NA,
                forall|s: int| 0 <= s < NA ==> (#[trigger] self.attribute_index_allocators@[s] is Some) == o.slot_live(s),
                forall|s: int| 0 <= s < NA ==> #[trigger] self.slot_count(s) == o.slot_count(s)
                    + (if o.slot_live(s) { t * o.idims_in_slot(s, o.ndims as int) } else { 0 }),
            decreases m - t,
        {
            let ghost pre = *self;
            proof {
                assert forall|s: int| 0 <= s < NA implies #[trigger] pre.idims_in_slot(s, pre.ndims as int) == o.idims_in_slot(s, o.ndims as int) by {
                    pre.lemma_idims_same(&o, s, o.ndims as int);
                }
                assert(pre.attribute_room(N as int)) by {
                    assert forall|s: int|
                        #![trigger pre.attribute_index_allocators@[s]]
                        0 <= s < NA && pre.attribute_index_allocators@[s] is Some implies pre.attribute_index_allocators@[s].unwrap().count + N <= usize::MAX by {
                        let x = o.idims_in_slot(s, o.ndims as int);
                        o.lemma_idims_bound(s, o.ndims as int);
                        assert(o.attribute_index_allocators@[s] is Some);
                        assert(o.attribute_index_allocators@[s].unwrap().count + N * m <= usize::MAX);
                        assert(pre.slot_count(s) == o.slot_count(s) + t * x);
                        assert(t * x + N <= N * m) by (nonlinear_arith)
                            requires
                                x <= N,
                                t < m,
                        {
                            assert(t * x <= t * N);
                            assert(t * N + N == (t + 1) * N);
                            assert((t + 1) * N <= m * N);
                        }
                    }
                }
            }
            let nd = self.create_dart();
            let ghost prev = news@;
            news.push(nd);
            proof {
                let (s0, c0, n0) = reserve_run(o.dart_index_allocator.count, o.dart_index_allocator.nodes@, t as nat);
                assert(reserve_run(o.dart_index_allocator.count, o.dart_index_allocator.nodes@, (t + 1) as nat)
                    == (s0.push(DartIndex(reserve_spec(c0, n0).0)), reserve_spec(c0, n0).1, reserve_spec(c0, n0).2));
                assert forall|s: int| 0 <= s < NA implies #[trigger] self.slot_count(s) == o.slot_count(s)
                    + (if o.slot_live(s) { (t + 1) * o.idims_in_slot(s, o.ndims as int) } else { 0 }) by {
                    let x = o.idims_in_slot(s, o.ndims as int);
                    assert(pre.slot_live(s) == o.slot_live(s));
                    assert((t + 1) * x == t * x + x) by (nonlinear_arith);
                }
                assert forall|d: int| #![trigger last_pos(news@, d, t + 1)] 0 <= d < self.len() implies {
                    &&& last_pos(news@, d, t + 1) >= 0 ==> self.fresh_from(&o, d, last_pos(news@, d, t + 1))
                    &&& last_pos(news@, d, t + 1) < 0 ==> d < o.len() && self.dart_unchanged(&o, d)
                } by {
                    assert(news@[t as int] == nd);
                    if d == nd.0 {
                        assert(last_pos(news@, d, t + 1) == t);
                        assert forall|k: int| 0 <= k < N implies #[trigger] self.alpha(d, k) == (if k < o.ndims { d } else { 0 }) by {}
                        assert forall|s: int| 0 <= s < NA implies #[trigger] self.attr(d, s) == o.create_attr(s, t as int) by {
                            let x = o.idims_in_slot(s, o.ndims as int);
                            assert(pre.slot_live(s) == o.slot_live(s));
                            if o.slot_live(s) && x > 0 {
                                assert(pre.slot_count(s) + x - 1 == o.slot_count(s) + (t + 1) * x - 1) by (nonlinear_arith)
                                    requires
                                        pre.slot_count(s) == o.slot_count(s) + t * x,
                                {}
                            }
                        }
                    } else {
                        lemma_last_pos_prefix(news@, prev, d, t as int);
                        assert(last_pos(news@, d, t + 1) == last_pos(prev, d, t as int));
                        assert(d < pre.len());
                        assert(self.darts@[d] == pre.darts@[d]);
                        let p = last_pos(prev, d, t as int);
                        if p >= 0 {
                            assert(pre.fresh_from(&o, d, p));
                            assert forall|k: int| 0 <= k < N implies #[trigger] self.alpha(d, k) == (if k < o.ndims { d } else { 0 }) by {
                                assert(pre.alpha(d, k) == (if k < o.ndims { d } else { 0 }));
                            }
                            assert forall|s: int| 0 <= s < NA implies #[trigger] self.attr(d, s) == o.create_attr(s, p) by {
                                assert(pre.attr(d, s) == o.create_attr(s, p));
                            }
                            assert(self.fresh_from(&o, d, p));
                        } else {
                            assert(pre.dart_unchanged(&o, d));
                        }
                    }
                }
            }
            t = t + 1;
        }
        news
    }

    /// Dart `d` stands for dart `olds[p]` of `other`: its alpha links and
    /// weak links are those of that dart carried over by `copy_target`, as
    /// far as both maps have them; its other links are as in `old`.
    pub open spec fn copied_links<const N1: usize, const NA1: usize, const NL1: usize>(&self, old: &Self,
        other: &NGMap<N1, NA1, NL1>, olds: Seq<int>, news: Seq<DartIndex>, d: int, p: int) -> bool {
        &&& forall|k: int| 0 <= k < N ==> #[trigger] self.alpha(d, k) == (
            if k < N1 {
                copy_target(olds, news, other.alpha(olds[p], k))
            } else {
                old.alpha(d, k)
            })
        &&& forall|l: int| 0 <= l < NL ==> #[trigger] self.link(d, l) == (
            if l < NL1 {
                DartIndex((if other.link(olds[p], l).0 < other.len() { copy_target(olds, news, other.link(olds[p], l).0 as int) } else { 0 }) as usize)
            } else {
                old.link(d, l)
            })
    }

    /// Sets the alpha links and weak links of each new dart from those of
    /// the dart of `other` it stands for.
    fn copy_links<const N1: usize, const NA1: usize, const NL1: usize>(&mut self, other: &NGMap<N1, NA1, NL1>,
        olds: &Vec<DartIndex>, news: &Vec<DartIndex>)
        requires
            old(self).wf(),
            other.wf(),
            to_ints(olds@) == other.all_darts(),
            news@.len() == olds@.len(),
            forall|i: int| 0 <= i < news@.len() ==> 1 <= (#[trigger] news@[i]).0 < old(self).len(),
        ensures
            final(self).wf(),
            final(self).same_books(old(self)),
            final(self).len() == old(self).len(),
            forall|d: int| 0 <= d < old(self).len() ==> {
                &&& (#[trigger] final(self).darts@[d]).init == old(self).darts@[d].init
                &&& final(self).darts@[d].attributes@ == old(self).darts@[d].attributes@
            },
            forall|d: int| #![trigger last_pos(news@, d, news@.len() as int)] 0 <= d < old(self).len() ==> {
                &&& last_pos(news@, d, news@.len() as int) >= 0 ==> final(self).copied_links(old(self), other, other.all_darts(), news@, d, last_pos(news@, d, news@.len() as int))
                &&& last_pos(news@, d, news@.len() as int) < 0 ==> final(self).dart_unchanged(old(self), d)
            },
    {
        let ghost o = *old(self);
        let ghost olds_i = other.all_darts();
        let m = olds.len();
        proof {
            other.lemma_init_darts_below(other.len());
        }
        let mut assoc: Vec<usize> = vec_repeat(0, other.darts.len());
        let mut t: usize = 0;
        while t < m
            invariant
                other.wf(),
                m == olds@.len(),
                m == news@.len(),
                t <= m,
                to_ints(olds@) == olds_i,
                olds_i == other.all_darts(),
                forall|i: int, j: int| 0 <= i < j < olds_i.len() ==> olds_i[i] < olds_i[j],
                forall|i: int| 0 <= i < olds_i.len() ==> 1 <= #[trigger] olds_i[i] < other.len(),
                assoc@.len() == other.len(),
                forall|x: int| 0 <= x < other.len() ==> #[trigger] assoc@[x] == (
                    if exists|i: int| 0 <= i < t && olds_i[i] == x { copy_target(olds_i, news@, x) } else { 0 }),
            decreases m - t,
        {
            let od = olds[t];
            proof {
                assert(to_ints(olds@)[t as int] == od.0);
            }
            assoc.set(od.0, news[t].0);
            proof {
                assert forall|x: int| 0 <= x < other.len() implies #[trigger] assoc@[x] == (
                    if exists|i: int| 0 <= i < t + 1 && olds_i[i] == x { copy_target(olds_i, news@, x) } else { 0 }) by {
                    if x == od.0 {
                        assert(olds_i[t as int] == x);
                        let c = choose|c: int| 0 <= c < olds_i.len() && olds_i[c] == x;
                        if c < t {
                            assert(olds_i[c] < olds_i[t as int]);
                        } else if c > t {
                            assert(olds_i[t as int] < olds_i[c]);
                        }
                    } else {
                        if exists|i: int| 0 <= i < t + 1 && olds_i[i] == x {
                            let i = choose|i: int| 0 <= i < t + 1 && olds_i[i] == x;
                            assert(i < t);
                        }
                    }
                }
            }
            t = t + 1;
        }
        proof {
            assert forall|x: int| 0 <= x < other.len() implies #[trigger] assoc@[x] == copy_target(olds_i, news@, x) by {
                if exists|i: int| 0 <= i < m && olds_i[i] == x {
                    let i = choose|i: int| 0 <= i < m && olds_i[i] == x;
                    assert(0 <= i < olds_i.len() && olds_i[i] == x);
                }
            }
            assert forall|x: int| 0 <= x < other.len() implies #[trigger] assoc@[x] < o.len() by {
                if exists|i: int| 0 <= i < olds_i.len() && olds_i[i] == x {
                    let c = choose|i: int| 0 <= i < olds_i.len() && olds_i[i] == x;
                    assert(news@[c].0 < o.len());
                }
            }
        }
        let mut t: usize = 0;
        while t < m
            invariant
                self.wf(),
                o.wf(),
                other.wf(),
                m == olds@.len(),
                m == news@.len(),
                t <= m,
                to_ints(olds@) == olds_i,
                olds_i == other.all_darts(),
                forall|i: int| 0 <= i < olds_i.len() ==> 1 <= #[trigger] olds_i[i] < other.len(),
                forall|i: int| 0 <= i < news@.len() ==> 1 <= (#[trigger] news@[i]).0 < o.len(),
                assoc@.len() == other.len(),
                forall|x: int| 0 <= x < other.len() ==> #[trigger] assoc@[x] == copy_target(olds_i, news@, x),
                forall|x: int| 0 <= x < other.len() ==> #[trigger] assoc@[x] < o.len(),
                self.same_books(&o),
                self.len() == o.len(),
                forall|d: int| 0 <= d < o.len() ==> {
                    &&& (#[trigger] self.darts@[d]).init == o.darts@[d].init
                    &&& self.darts@[d].attributes@ == o.darts@[d].attributes@
                },
                forall|d: int| #![trigger last_pos(news@, d, t as int)] 0 <= d < o.len() ==> {
                    &&& last_pos(news@, d, t as int) >= 0 ==> self.copied_links(&o, other, olds_i, news@, d, last_pos(news@, d, t as int))
                    &&& last_pos(news@, d, t as int) < 0 ==> self.dart_unchanged(&o, d)
                },
            decreases m - t,
        {
            let d = news[t];
            let od = olds[t];
            let ghost pre = *self;
            proof {
                assert(to_ints(olds@)[t as int] == od.0);
                assert(olds_i[t as int] == od.0);
            }
            let mut k: usize = 0;
            while k < N
                invariant
                    self.wf(),
                    other.wf(),
                    k <= N,
                    od.0 < other.len(),
                    d.0 < o.len(),
                    assoc@.len() == other.len(),
                    forall|x: int| 0 <= x < other.len() ==> #[trigger] assoc@[x] < o.len(),
                    self.same_books(&pre),
                    self.len() == pre.len(),
                    self.len() == o.len(),
                    forall|e: int| 0 <= e < o.len() ==> {
                        &&& (#[trigger] self.darts@[e]).init == pre.darts@[e].init
                        &&& self.darts@[e].attributes@ == pre.darts@[e].attributes@
                        &&& self.darts@[e].links@ == pre.darts@[e].links@
                    },
                    forall|e: int, kk: int| 0 <= e < o.len() && 0 <= kk < N ==> #[trigger] self.alpha(e, kk) == (
                        if e == d.0 && kk < k && kk < N1 { assoc@[other.alpha(od.0 as int, kk)] as int } else { pre.alpha(e, kk) }),
                decreases N - k,
            {
                if k < N1 {
                    let a = other.get_alpha(&od, k);
                    assert(other.alpha(od.0 as int, k as int) < other.len());
                    let ghost before = *self;
                    self.set_dart_alpha(d.0, k, DartIndex(assoc[a.0]));
                    proof {
                        assert forall|e: int| 0 <= e < o.len() implies {
                            &&& (#[trigger] self.darts@[e]).init == pre.darts@[e].init
                            &&& self.darts@[e].attributes@ == pre.darts@[e].attributes@
                            &&& self.darts@[e].links@ == pre.darts@[e].links@
                        } by {
                            assert(before.darts@[e].init == pre.darts@[e].init);
                            assert(self.darts@[e].init == before.darts@[e].init);
                        }
                    }
                }
                k = k + 1;
            }
            let ghost mid = *self;
            let mut l: usize = 0;
            while l < NL
                invariant
                    self.wf(),
                    other.wf(),
                    l <= NL,
                    od.0 < other.len(),
                    d.0 < o.len(),
                    assoc@.len() == other.len(),
                    forall|x: int| 0 <= x < other.len() ==> #[trigger] assoc@[x] < o.len(),
                    self.same_books(&mid),
                    self.len() == mid.len(),
                    self.len() == o.len(),
                    forall|e: int| 0 <= e < o.len() && e != d.0 ==> #[trigger] self.darts@[e] == mid.darts@[e],
                    self.darts@[d.0 as int].init == mid.darts@[d.0 as int].init,
                    self.darts@[d.0 as int].alphas@ == mid.darts@[d.0 as int].alphas@,
                    self.darts@[d.0 as int].attributes@ == mid.darts@[d.0 as int].attributes@,
                    forall|ll: int| 0 <= ll < NL ==> #[trigger] self.link(d.0 as int, ll) == (
                        if ll < l && ll < NL1 {
                            DartIndex((if other.link(od.0 as int, ll).0 < other.len() { assoc@[other.link(od.0 as int, ll).0 as int] as int } else { 0 }) as usize)
                        } else {
                            mid.link(d.0 as int, ll)
                        }),
                decreases NL - l,
            {
                if l < NL1 {
                    let x = other.get_link_raw(&od, l);
                    let target = if x.0 < other.darts.len() { assoc[x.0] } else { 0 };
                    let ghost before = *self;
                    self.set_link(&d, DartIndex(target), l);
                    proof {
                        assert forall|ll: int| 0 <= ll < NL implies #[trigger] self.link(d.0 as int, ll) == (
                            if ll < l + 1 && ll < NL1 {
                                DartIndex((if other.link(od.0 as int, ll).0 < other.len() { assoc@[other.link(od.0 as int, ll).0 as int] as int } else { 0 }) as usize)
                            } else {
                                mid.link(d.0 as int, ll)
                            }) by {
                            if ll != l {
                                assert(before.link(d.0 as int, ll) == self.link(d.0 as int, ll));
                            }
                        }
                        assert forall|e: int| 0 <= e < o.len() && e != d.0 implies #[trigger] self.darts@[e] == mid.darts@[e] by {
                            assert(before.darts@[e] == mid.darts@[e]);
                        }
                    }
                }
                l = l + 1;
            }
            proof {
                assert forall|e: int| #![trigger last_pos(news@, e, t + 1)] 0 <= e < o.len() implies {
                    &&& last_pos(news@, e, t + 1) >= 0 ==> self.copied_links(&o, other, olds_i, news@, e, last_pos(news@, e, t + 1))
                    &&& last_pos(news@, e, t + 1) < 0 ==> self.dart_unchanged(&o, e)
                } by {
                    if e == d.0 {
                        assert(last_pos(news@, e, t + 1) == t);
                        let p = last_pos(news@, e, t as int);
                        assert forall|k: int| 0 <= k < N implies #[trigger] self.alpha(e, k) == (
                            if k < N1 {
                                copy_target(olds_i, news@, other.alpha(olds_i[t as int], k))
                            } else {
                                o.alpha(e, k)
                            }) by {
                            assert(self.alpha(e, k) == mid.alpha(e, k));
                            if k < N1 {
                                assert(other.alpha(od.0 as int, k) < other.len());
                            } else if p >= 0 {
                                assert(pre.copied_links(&o, other, olds_i, news@, e, p));
                            } else {
                                assert(pre.dart_unchanged(&o, e));
                            }
                        }
                        assert forall|ll: int| 0 <= ll < NL implies #[trigger] self.link(e, ll) == (
                            if ll < NL1 {
                                DartIndex((if other.link(olds_i[t as int], ll).0 < other.len() { copy_target(olds_i, news@, other.link(olds_i[t as int], ll).0 as int) } else { 0 }) as usize)
                            } else {
                                o.link(e, ll)
                            }) by {
                            assert(mid.darts@[e].init == pre.darts@[e].init);
                            if ll < NL1 {
                                let x = other.link(od.0 as int, ll).0;
                                assert(self.link(d.0 as int, ll) == DartIndex((if x < other.len() { assoc@[x as int] as int } else { 0 }) as usize));
                                if x < other.len() {
                                    assert(assoc@[x as int] == copy_target(olds_i, news@, x as int));
                                }
                            } else {
                                assert(mid.darts@[e].links@ == pre.darts@[e].links@);
                                assert(self.link(e, ll) == mid.link(e, ll));
                                if p >= 0 {
                                    assert(pre.copied_links(&o, other, olds_i, news@, e, p));
                                    assert(pre.link(e, ll) == o.link(e, ll));
                                } else {
                                    assert(pre.dart_unchanged(&o, e));
                                }
                            }
                        }
                    } else {
                        assert(last_pos(news@, e, t + 1) == last_pos(news@, e, t as int));
                        assert(self.darts@[e] == mid.darts@[e]);
                        assert(mid.darts@[e].init == pre.darts@[e].init);
                        assert(mid.darts@[e].wf() && pre.darts@[e].wf());
                        assert forall|k: int| 0 <= k < N implies #[trigger] mid.alpha(e, k) == pre.alpha(e, k) by {}
                        assert(mid.darts@[e].alphas@ =~= pre.darts@[e].alphas@) by {
                            assert forall|k: int| 0 <= k < N implies mid.darts@[e].alphas@[k] == pre.darts@[e].alphas@[k] by {
                                assert(mid.alpha(e, k) == pre.alpha(e, k));
                            }
                        }
                        let p = last_pos(news@, e, t as int);
                        if p >= 0 {
                            assert(pre.copied_links(&o, other, olds_i, news@, e, p));
                            assert forall|k: int| 0 <= k < N implies #[trigger] self.alpha(e, k) == pre.alpha(e, k) by {}
                            assert forall|ll: int| 0 <= ll < NL implies #[trigger] self.link(e, ll) == pre.link(e, ll) by {}
                        } else {
                            assert(pre.dart_unchanged(&o, e));
                        }
                    }
                }
            }
            t = t + 1;
        }
    }

    /// Slot `s` holds the attributes of a dimension below `NA`.
    pub open spec fn copy_renumbers(&self, s: int) -> bool {
        exists|k: int| 0 <= k < NA && #[trigger] self.attribute_container_indices@.contains_key(k as usize) && self.attribute_container_indices@[k as usize] == s
    }

    /// The dimension below `NA` whose attributes are in slot `s`.
    pub open spec fn copy_idim(&self, s: int) -> int {
        choose|k: int| 0 <= k < NA && #[trigger] self.attribute_container_indices@.contains_key(k as usize) && self.attribute_container_indices@[k as usize] == s
    }

    /// One dart per `idim`-cell among the darts of `news`.
    pub open spec fn copy_reps(&self, news: Seq<DartIndex>, idim: int) -> Seq<DartIndex> {
        as_darts(self.reps(to_ints(news), seq_without(idim, N as int)))
    }

    /// This map is `old` after giving, for each dimension below `NA` with
    /// a slot, each of its cells among `news` in turn a fresh index (see
    /// `cells_indexed`); the other slots are unchanged.
    pub open spec fn copies_renumbered(&self, old: &Self, news: Seq<DartIndex>) -> bool {
        &&& self.len() == old.len()
        &&& self.ndims == old.ndims
        &&& self.dart_index_allocator == old.dart_index_allocator
        &&& self.marks@ == old.marks@
        &&& self.attribute_container_indices@ == old.attribute_container_indices@
        &&& self.attribute_actions@ == old.attribute_actions@
        &&& self.attribute_index_allocators@.len() == NA
        &&& forall|d: int| 0 <= d < old.len() ==> {
            &&& (#[trigger] self.darts@[d]).init == old.darts@[d].init
            &&& self.darts@[d].alphas@ == old.darts@[d].alphas@
            &&& self.darts@[d].links@ == old.darts@[d].links@
            &&& self.darts@[d].attributes@.len() == NA
        }
        &&& forall|s: int| 0 <= s < NA && !old.copy_renumbers(s) ==> #[trigger] self.attribute_index_allocators@[s] == old.attribute_index_allocators@[s]
        &&& forall|s: int, d: int| 0 <= s < NA && !old.copy_renumbers(s) && 0 <= d < old.len() ==> #[trigger] self.attr(d, s) == old.attr(d, s)
        &&& forall|s: int| 0 <= s < NA && old.copy_renumbers(s) ==> {
            let reps = old.copy_reps(news, old.copy_idim(s));
            &&& #[trigger] self.attribute_index_allocators@[s] is Some
            &&& self.attribute_index_allocators@[s].unwrap().count == old.slot_count(s) + reps.len()
            &&& self.attribute_index_allocators@[s].unwrap().nodes@ == old.attribute_index_allocators@[s].unwrap().nodes@
        }
        &&& forall|s: int, d: int| 0 <= s < NA && old.copy_renumbers(s) && 0 <= d < old.len() ==> #[trigger] self.attr(d, s) == ({
            let k = old.copy_idim(s);
            let reps = old.copy_reps(news, k);
            let last = old.last_cell(reps, k, d, reps.len() as int);
            if last < 0 { old.attr(d, s) } else { AttributeIndex((old.slot_count(s) + last) as usize) }
        })
    }

    /// For each dimension below `NA` with a slot, gives each of its cells
    /// among `news` a fresh attribute index (see `copies_renumbered`).
    fn renumber_copies(&mut self, news: &Vec<DartIndex>)
        requires
            old(self).wf(),
            forall|i: int| 0 <= i < news@.len() ==> (#[trigger] news@[i]).0 < old(self).len(),
            forall|s: int| 0 <= s < NA ==> #[trigger] old(self).slot_count(s) + news@.len() <= usize::MAX,
        ensures
            final(self).wf(),
            final(self).copies_renumbered(old(self), news@),
    {
        let ghost o = *old(self);
        let mut idim: usize = 0;
        while idim < NA
            invariant
                self.wf(),
                o.wf(),
                idim <= NA,
                forall|i: int| 0 <= i < news@.len() ==> (#[trigger] news@[i]).0 < o.len(),
                forall|s: int| 0 <= s < NA ==> #[trigger] o.slot_count(s) + news@.len() <= usize::MAX,
                self.len() == o.len(),
                self.ndims == o.ndims,
                self.dart_index_allocator == o.dart_index_allocator,
                self.marks@ == o.marks@,
                self.attribute_container_indices@ == o.attribute_container_indices@,
                self.attribute_actions@ == o.attribute_actions@,
                self.attribute_index_allocators@.len() == NA,
                forall|d: int| 0 <= d < o.len() ==> {
                    &&& (#[trigger] self.darts@[d]).init == o.darts@[d].init
                    &&& self.darts@[d].alphas@ == o.darts@[d].alphas@
                    &&& self.darts@[d].links@ == o.darts@[d].links@
                    &&& self.darts@[d].attributes@.len() == NA
                },
                forall|s: int| 0 <= s < NA && !(o.copy_renumbers(s) && o.copy_idim(s) < idim) ==> #[trigger] self.attribute_index_allocators@[s] == o.attribute_index_allocators@[s],
                forall|s: int, d: int| 0 <= s < NA && !(o.copy_renumbers(s) && o.copy_idim(s) < idim) && 0 <= d < o.len() ==> #[trigger] self.attr(d, s) == o.attr(d, s),
                forall|s: int| 0 <= s < NA && o.copy_renumbers(s) && o.copy_idim(s) < idim ==> {
                    let reps = o.copy_reps(news@, o.copy_idim(s));
                    &&& #[trigger] self.attribute_index_allocators@[s] is Some
                    &&& self.attribute_index_allocators@[s].unwrap().count == o.slot_count(s) + reps.len()
                    &&& self.attribute_index_allocators@[s].unwrap().nodes@ == o.attribute_index_allocators@[s].unwrap().nodes@
                },
                forall|s: int, d: int| 0 <= s < NA && o.copy_renumbers(s) && o.copy_idim(s) < idim && 0 <= d < o.len() ==> #[trigger] self.attr(d, s) == ({
                    let k = o.copy_idim(s);
                    let reps = o.copy_reps(news@, k);
                    let last = o.last_cell(reps, k, d, reps.len() as int);
                    if last < 0 { o.attr(d, s) } else { AttributeIndex((o.slot_count(s) + last) as usize) }
                }),
            decreases NA - idim,
        {
            if self.attribute_container_indices.contains_key(&idim) {
                let ghost pre = *self;
                let ghost s0 = o.attribute_container_indices@[idim] as int;
                proof {
                    assert(o.attribute_container_indices@[idim] < NA);
                    assert(o.attribute_container_indices@.contains_key((idim as int) as usize));
                    assert(o.copy_renumbers(s0));
                    let k = o.copy_idim(s0);
                    assert(o.attribute_container_indices@[k as usize] == o.attribute_container_indices@[idim]);
                    assert(k == idim);
                    assert forall|d: int, kk: int| 0 <= d < o.len() && 0 <= kk < N implies #[trigger] pre.alpha(d, kk) == o.alpha(d, kk) by {
                        assert(pre.darts@[d].alphas@ == o.darts@[d].alphas@);
                    }
                    o.lemma_same_alphas_same_orbits(&pre, seq_without(idim as int, N as int));
                    assert forall|i: int| 0 <= i < to_ints(news@).len() implies #[trigger] pre.orbit_set(to_ints(news@)[i], seq_without(idim as int, N as int)) == o.orbit_set(to_ints(news@)[i], seq_without(idim as int, N as int)) by {
                        assert(to_ints(news@)[i] == news@[i].0);
                    }
                    pre.lemma_reps_same(&o, to_ints(news@), seq_without(idim as int, N as int));
                }
                let iseq = get_seq(idim, N);
                let reps = self.reps_of(news, iseq.as_slice());
                proof {
                    lemma_as_darts(reps@, pre.reps(to_ints(news@), seq_without(idim as int, N as int)));
                    assert(reps@ == o.copy_reps(news@, idim as int));
                    assert(pre.slot_count(s0) == o.slot_count(s0));
                    assert(pre.has_container(idim as int));
                }
                self.index_cells(&reps, idim);
                proof {
                    assert forall|t: int| 0 <= t < reps@.len() implies pre.cell((#[trigger] reps@[t]).0 as int, idim as int) == o.cell(reps@[t].0 as int, idim as int) by {
                        assert(reps@[t].0 < o.len());
                    }
                    crate::gmap::attributes::lemma_last_cell_same(&pre, &o, reps@, idim as int);
                    assert forall|s: int| 0 <= s < NA && !(o.copy_renumbers(s) && o.copy_idim(s) < idim + 1)
                        implies #[trigger] self.attribute_index_allocators@[s] == o.attribute_index_allocators@[s] by {
                        assert(s != s0);
                    }
                    assert forall|s: int, d: int| 0 <= s < NA && !(o.copy_renumbers(s) && o.copy_idim(s) < idim + 1) && 0 <= d < o.len()
                        implies #[trigger] self.attr(d, s) == o.attr(d, s) by {
                        assert(s != s0);
                        assert(self.darts@[d].attributes@[s] == pre.darts@[d].attributes@[s]);
                        assert(pre.attr(d, s) == o.attr(d, s));
                    }
                    assert forall|s: int| 0 <= s < NA && o.copy_renumbers(s) && o.copy_idim(s) < idim + 1 implies {
                        let reps = o.copy_reps(news@, o.copy_idim(s));
                        &&& #[trigger] self.attribute_index_allocators@[s] is Some
                        &&& self.attribute_index_allocators@[s].unwrap().count == o.slot_count(s) + reps.len()
                        &&& self.attribute_index_allocators@[s].unwrap().nodes@ == o.attribute_index_allocators@[s].unwrap().nodes@
                    } by {
                        if s != s0 {
                            let k = o.copy_idim(s);
                            assert(k != idim);
                        }
                    }
                    assert forall|s: int, d: int| 0 <= s < NA && o.copy_renumbers(s) && o.copy_idim(s) < idim + 1 && 0 <= d < o.len()
                        implies #[trigger] self.attr(d, s) == ({
                            let k = o.copy_idim(s);
                            let reps = o.copy_reps(news@, k);
                            let last = o.last_cell(reps, k, d, reps.len() as int);
                            if last < 0 { o.attr(d, s) } else { AttributeIndex((o.slot_count(s) + last) as usize) }
                        }) by {
                        let k = o.copy_idim(s);
                        let rp = o.copy_reps(news@, k);
                        let last = o.last_cell(rp, k, d, rp.len() as int);
                        if s != s0 {
                            assert(k != idim);
                            assert(self.darts@[d].attributes@[s] == pre.darts@[d].attributes@[s]);
                            assert(pre.attr(d, s) == (if last < 0 { o.attr(d, s) } else { AttributeIndex((o.slot_count(s) + last) as usize) }));
                        } else {
                            assert(k == idim);
                            assert(rp == reps@);
                            assert(pre.attr(d, s) == o.attr(d, s));
                            assert(pre.last_cell(reps@, idim as int, d, reps@.len() as int) == last);
                        }
                    }
                    assert forall|d: int| 0 <= d < o.len() implies {
                        &&& (#[trigger] self.darts@[d]).init == o.darts@[d].init
                        &&& self.darts@[d].alphas@ == o.darts@[d].alphas@
                        &&& self.darts@[d].links@ == o.darts@[d].links@
                        &&& self.darts@[d].attributes@.len() == NA
                    } by {
                        assert(pre.darts@[d].init == o.darts@[d].init);
                    }
                }
            } else {
                proof {
                    assert forall|s: int| 0 <= s < NA && o.copy_renumbers(s) implies #[trigger] o.copy_idim(s) != idim by {
                        let k = o.copy_idim(s);
                        if k == idim {
                            assert(o.attribute_container_indices@.contains_key(k as usize));
                        }
                    }
                }
            }
            idim = idim + 1;
        }
    }

    /// The copy actions for dimension `idim`, one per copied dart among the
    /// first `m`.
    pub open spec fn copy_actions_for<const N1: usize, const NA1: usize, const NL1: usize>(&self,
        other: &NGMap<N1, NA1, NL1>, olds: Seq<int>, news: Seq<DartIndex>, idim: int, m: int) -> Seq<AttributeAction>
        decreases m,
    {
        if m <= 0 {
            Seq::empty()
        } else {
            self.copy_actions_for(other, olds, news, idim, m - 1).push(AttributeAction::Copy {
                idim: idim as usize,
                index: self.attr_index(news[m - 1].0 as int, idim),
                index_other: other.attr_index(olds[m - 1], idim),
            })
        }
    }

    /// The copy actions for the dimensions below `k` that have a slot in
    /// both maps.
    pub open spec fn copy_actions<const N1: usize, const NA1: usize, const NL1: usize>(&self,
        other: &NGMap<N1, NA1, NL1>, olds: Seq<int>, news: Seq<DartIndex>, k: int) -> Seq<AttributeAction>
        decreases k,
    {
        if k <= 0 {
            Seq::empty()
        } else {
            self.copy_actions(other, olds, news, k - 1) + (
                if self.attribute_container_indices@.contains_key((k - 1) as usize) && other.attribute_container_indices@.contains_key((k - 1) as usize) {
                    self.copy_actions_for(other, olds, news, k - 1, news.len() as int)
                } else {
                    Seq::empty()
                })
        }
    }

    /// Records, for each dimension below `NA` with a slot in both maps and
    /// each copied dart, that its attribute is to be copied (see
    /// `AttributeAction::Copy`).
    fn record_copies<const N1: usize, const NA1: usize, const NL1: usize>(&mut self, other: &NGMap<N1, NA1, NL1>,
        olds: &Vec<DartIndex>, news: &Vec<DartIndex>)
        requires
            old(self).wf(),
            other.wf(),
            olds@.len() == news@.len(),
            forall|i: int| 0 <= i < olds@.len() ==> (#[trigger] olds@[i]).0 < other.len(),
            forall|i: int| 0 <= i < news@.len() ==> (#[trigger] news@[i]).0 < old(self).len(),
        ensures
            final(self).wf(),
            final(self).ndims == old(self).ndims,
            final(self).darts@ == old(self).darts@,
            final(self).dart_index_allocator == old(self).dart_index_allocator,
            final(self).marks@ == old(self).marks@,
            final(self).attribute_container_indices@ == old(self).attribute_container_indices@,
            final(self).attribute_index_allocators@ == old(self).attribute_index_allocators@,
            final(self).attribute_actions@ == old(self).attribute_actions@ + old(self).copy_actions(other, to_ints(olds@), news@, NA as int),
    {
        let ghost o = *old(self);
        let m = news.len();
        let mut idim: usize = 0;
        proof {
            assert(self.attribute_actions@ =~= o.attribute_actions@ + o.copy_actions(other, to_ints(olds@), news@, 0));
        }
        while idim < NA
            invariant
                self.wf(),
                other.wf(),
                o.wf(),
                idim <= NA,
                m == news@.len(),
                olds@.len() == news@.len(),
                forall|i: int| 0 <= i < olds@.len() ==> (#[trigger] olds@[i]).0 < other.len(),
                forall|i: int| 0 <= i < news@.len() ==> (#[trigger] news@[i]).0 < o.len(),
                self.ndims == o.ndims,
                self.darts@ == o.darts@,
                self.dart_index_allocator == o.dart_index_allocator,
                self.marks@ == o.marks@,
                self.attribute_container_indices@ == o.attribute_container_indices@,
                self.attribute_index_allocators@ == o.attribute_index_allocators@,
                self.attribute_actions@ == o.attribute_actions@ + o.copy_actions(other, to_ints(olds@), news@, idim as int),
            decreases NA - idim,
        {
            if self.attribute_container_indices.contains_key(&idim) && other.attribute_container_indices.contains_key(&idim) {
                let ghost base = self.attribute_actions@;
                let mut t: usize = 0;
                proof {
                    assert(self.attribute_actions@ =~= base + o.copy_actions_for(other, to_ints(olds@), news@, idim as int, 0));
                }
                while t < m
                    invariant
                        self.wf(),
                        other.wf(),
                        o.wf(),
                        t <= m,
                        idim < NA,
                        m == news@.len(),
                        olds@.len() == news@.len(),
                        forall|i: int| 0 <= i < olds@.len() ==> (#[trigger] olds@[i]).0 < other.len(),
                        forall|i: int| 0 <= i < news@.len() ==> (#[trigger] news@[i]).0 < o.len(),
                        self.ndims == o.ndims,
                        self.darts@ == o.darts@,
                        self.dart_index_allocator == o.dart_index_allocator,
                        self.marks@ == o.marks@,
                        self.attribute_container_indices@ == o.attribute_container_indices@,
                        self.attribute_index_allocators@ == o.attribute_index_allocators@,
                        self.attribute_actions@ == base + o.copy_actions_for(other, to_ints(olds@), news@, idim as int, t as int),
                    decreases m - t,
                {
                    let index = self.get_attribute_index(&news[t], idim);
                    let index_other = other.get_attribute_index(&olds[t], idim);
                    let ghost before = *self;
                    self.attribute_actions.push(AttributeAction::Copy { idim: idim, index: index, index_other: index_other });
                    proof {
                        assert(to_ints(olds@)[t as int] == olds@[t as int].0);
                        assert(index == o.attr_index(news@[t as int].0 as int, idim as int));
                        assert(self.attribute_actions@ =~= base + o.copy_actions_for(other, to_ints(olds@), news@, idim as int, t + 1));
                        crate::gmap::attributes::lemma_wf_same_attributes(&before, self);
                    }
                    t = t + 1;
                }
                proof {
                    assert(self.attribute_actions@ =~= o.attribute_actions@ + o.copy_actions(other, to_ints(olds@), news@, idim + 1));
                }
            } else {
                proof {
                    assert(self.attribute_actions@ =~= o.attribute_actions@ + o.copy_actions(other, to_ints(olds@), news@, idim + 1));
                }
            }
            idim = idim + 1;
        }
    }

    /// This map is made of `z` by creating the new darts `news` in turn.
    pub open spec fn copies_created(&self, z: &Self, news: Seq<DartIndex>) -> bool {
        let m = news.len();
        &&& self.wf()
        &&& (news, self.dart_index_allocator.count, self.dart_index_allocator.nodes@)
            == reserve_run(z.dart_index_allocator.count, z.dart_index_allocator.nodes@, m)
        &&& z.len() <= self.len() <= z.len() + m
        &&& forall|i: int| 0 <= i < m ==> 1 <= (#[trigger] news[i]).0 < self.len()
        &&& forall|d: int| #![trigger last_pos(news, d, m as int)] 0 <= d < self.len() ==> {
            &&& last_pos(news, d, m as int) >= 0 ==> self.fresh_from(z, d, last_pos(news, d, m as int))
            &&& last_pos(news, d, m as int) < 0 ==> d < z.len() && self.dart_unchanged(z, d)
        }
        &&& self.ndims == z.ndims
        &&& self.marks@ == z.marks@
        &&& self.attribute_container_indices@ == z.attribute_container_indices@
        &&& self.attribute_actions@ == z.attribute_actions@
        &&& self.attribute_index_allocators@.len() == NA
        &&& forall|s: int| 0 <= s < NA ==> (#[trigger] self.attribute_index_allocators@[s] is Some) == z.slot_live(s)
        &&& forall|s: int| 0 <= s < NA ==> #[trigger] self.slot_count(s) == z.slot_count(s)
            + (if z.slot_live(s) { m * z.idims_in_slot(s, z.ndims as int) } else { 0 })
    }

    /// This map is `a` with the links of the new darts `news` copied from
    /// the darts in use of `other`.
    pub open spec fn links_copied<const N1: usize, const NA1: usize, const NL1: usize>(&self, a: &Self,
        other: &NGMap<N1, NA1, NL1>, news: Seq<DartIndex>) -> bool {
        &&& self.wf()
        &&& self.same_books(a)
        &&& self.len() == a.len()
        &&& forall|d: int| 0 <= d < a.len() ==> {
            &&& (#[trigger] self.darts@[d]).init == a.darts@[d].init
            &&& self.darts@[d].attributes@ == a.darts@[d].attributes@
        }
        &&& forall|d: int| #![trigger last_pos(news, d, news.len() as int)] 0 <= d < a.len() ==> {
            &&& last_pos(news, d, news.len() as int) >= 0 ==> self.copied_links(a, other, other.all_darts(), news, d, last_pos(news, d, news.len() as int))
            &&& last_pos(news, d, news.len() as int) < 0 ==> self.dart_unchanged(a, d)
        }
    }

    /// This map is `old` with a copy of `other` added: with the marks freed
    /// (`z`), one new dart created per dart in use of `other`, in
    /// increasing order (`a`), the links of the new darts copied (`b`),
    /// fresh attribute indices for the copied cells (`c`), and the copy
    /// actions recorded.
    pub open spec fn copied_from<const N1: usize, const NA1: usize, const NL1: usize>(&self, old: &Self, other: &NGMap<N1, NA1, NL1>) -> bool {
        exists|news: Seq<DartIndex>, z: Self, a: Self, b: Self, c: Self|
            #![trigger a.copies_created(&z, news), b.links_copied(&a, other, news), c.copies_renumbered(&b, news)]
            {
                &&& news.len() == other.all_darts().len()
                &&& old.same_except_marks(&z)
                &&& z.marks@ == Map::<usize, Vec<bool>>::empty()
                &&& a.copies_created(&z, news)
                &&& b.links_copied(&a, other, news)
                &&& c.copies_renumbered(&b, news)
                &&& self.ndims == c.ndims
                &&& self.darts@ == c.darts@
                &&& self.dart_index_allocator == c.dart_index_allocator
                &&& self.marks@ == c.marks@
                &&& self.attribute_container_indices@ == c.attribute_container_indices@
                &&& self.attribute_index_allocators@ == c.attribute_index_allocators@
                &&& self.attribute_actions@ == c.attribute_actions@ + c.copy_actions(other, other.all_darts(), news, NA as int)
            }
    }

    /// Adds a copy of `other` to this map (see `copied_from`): `false`,
    /// changing nothing, if `other` has more weak links per dart than this
    /// map.
    pub fn copy_from<const N1: usize, const NA1: usize, const NL1: usize>(&mut self, other: &NGMap<N1, NA1, NL1>) -> (r: bool)
        requires
            old(self).wf(),
            other.wf(),
            NL1 <= NL ==> {
                &&& old(self).len() + other.len() + 1 < usize::MAX
                &&& old(self).attribute_room(N * other.len() + other.len())
                &&& forall|k: int| 0 <= k < NA && #[trigger] other.attribute_container_indices@.contains_key(k as usize)
                        ==> old(self).attribute_container_indices@.contains_key(k as usize)
            },
        ensures
            r == (NL1 <= NL),
            !r ==> *final(self) == *old(self),
            r ==> final(self).wf(),
            r ==> final(self).marks@ == Map::<usize, Vec<bool>>::empty(),
            r ==> final(self).copied_from(old(self), other),
    {
        if NL1 > NL {
            return false;
        }
        let ghost o = *old(self);
        self.free_marks();
        let ghost z = *self;
        let olds = other.all_darts_vec();
        let m = olds.len();
        proof {
            other.lemma_init_darts_below(other.len());
            assert(m <= other.len()) by {
                assert forall|i: int, j: int| 0 <= i < j < olds@.len() implies olds@[i] != olds@[j] by {
                    assert(to_ints(olds@)[i] < to_ints(olds@)[j]);
                }
                crate::iterators::lemma_distinct_bound(olds@, Seq::<DartIndex>::empty(), other.len());
            }
            assert(z.attribute_room(N * m)) by {
                assert(N * m <= N * other.len() + other.len()) by (nonlinear_arith)
                    requires
                        m <= other.len(),
                {
                    assert(N * m <= N * other.len());
                }
            }
        }
        let news = self.copy_create(m);
        let ghost a = *self;
        self.copy_links(other, &olds, &news);
        let ghost b = *self;
        proof {
            assert forall|s: int| 0 <= s < NA implies #[trigger] b.slot_count(s) + news@.len() <= usize::MAX by {
                let x = z.idims_in_slot(s, z.ndims as int);
                z.lemma_idims_bound(s, z.ndims as int);
                assert(b.attribute_index_allocators@[s] == a.attribute_index_allocators@[s]);
                assert(a.slot_count(s) == z.slot_count(s) + (if z.slot_live(s) { m * x } else { 0 }));
                if z.slot_live(s) {
                    assert(z.attribute_index_allocators@[s] is Some);
                    assert(o.attribute_index_allocators@[s] is Some);
                    assert(o.attribute_index_allocators@[s].unwrap().count + (N * other.len() + other.len()) <= usize::MAX);
                    assert(z.slot_count(s) + N * other.len() + other.len() <= usize::MAX);
                    assert(m * x + m <= N * other.len() + other.len()) by (nonlinear_arith)
                        requires
                            x <= N,
                            m <= other.len(),
                    {
                        assert(m * x <= m * N);
                        assert(m * N <= other.len() * N);
                    }
                }
            }
        }
        self.renumber_copies(&news);
        let ghost c = *self;
        self.record_copies(other, &olds, &news);
        self.free_marks();
        proof {
            assert(to_ints(olds@) == other.all_darts());
            assert(a.copies_created(&z, news@));
            assert(b.links_copied(&a, other, news@));
            assert(c.copies_renumbered(&b, news@));
            assert(self.copied_from(&o, other));
        }
        true
    }

    /// Adds a copy of this map to `other` (see `copy_from`).
    pub fn copy_to<const N1: usize, const NA1: usize, const NL1: usize>(&self, other: &mut NGMap<N1, NA1, NL1>) -> (r: bool)
        requires
            self.wf(),
            old(other).wf(),
            NL <= NL1 ==> {
                &&& old(other).len() + self.len() + 1 < usize::MAX
                &&& old(other).attribute_room(N1 * self.len() + self.len())
                &&& forall|k: int| 0 <= k < NA1 && #[trigger] self.attribute_container_indices@.contains_key(k as usize)
                        ==> old(other).attribute_container_indices@.contains_key(k as usize)
            },
        ensures
            r == (NL <= NL1),
            !r ==> *final(other) == *old(other),
            r ==> final(other).wf(),
            r ==> final(other).marks@ == Map::<usize, Vec<bool>>::empty(),
            r ==> final(other).copied_from(old(other), self),
    {
        other.copy_from(self)
    }
}

impl<const N: usize, const NA: usize, const NL: usize> NGMap<N, NA, NL> {
    /// Copying adds an isomorphic copy. Let this map come from `before` by a
    /// successful `copy_from(other)`, as its contract states, where the
    /// freed dart indices of `before` are out of use. Then the copy has one new
    /// dart per dart in use of `other` (in the order of `all_darts`), the
    /// next ones the dart allocator of `before` hands out: the new darts are
    /// distinct, none was in use in `before`, all are in use now;
    /// every alpha link below both dimensions between darts of `other`
    /// links their copies in the same way; and the darts in use in `before`
    /// keep their state and links.
    pub proof fn lemma_copy_is_isomorphic<const N1: usize, const NA1: usize, const NL1: usize>(&self, before: &Self, other: &NGMap<N1, NA1, NL1>)
        requires
            before.wf(),
            other.wf(),
            before.free_indices_unused(),
            before.len() + other.len() + 1 < usize::MAX,
            self.copied_from(before, other),
        ensures
            ({
                let olds = other.all_darts();
                let news = reserve_run(before.dart_index_allocator.count, before.dart_index_allocator.nodes@, olds.len()).0;
                &&& news.len() == olds.len()
                &&& forall|i: int, j: int| 0 <= i < j < news.len() ==> (#[trigger] news[i]).0 != (#[trigger] news[j]).0
                &&& forall|i: int| 0 <= i < news.len() ==> {
                    let x = (#[trigger] news[i]).0 as int;
                    &&& 0 <= x < self.len()
                    &&& self.is_init(x)
                    &&& !(x < before.len() && before.is_init(x))
                }
                &&& forall|i: int, t: int, k: int|
                    0 <= i < news.len() && 0 <= t < news.len() && 0 <= k < N && k < N1
                    && #[trigger] other.alpha(olds[i], k) == #[trigger] olds[t]
                    ==> self.alpha(news[i].0 as int, k) == news[t].0
                &&& forall|d: int| 0 <= d < before.len() && before.is_init(d) ==> #[trigger] self.is_init(d)
                &&& forall|d: int| 0 <= d < self.len() && #[trigger] self.is_init(d)
                    ==> (d < before.len() && before.is_init(d)) || exists|i: int| 0 <= i < news.len() && (#[trigger] news[i]).0 == d
                &&& self.ndims == before.ndims
                &&& self.len() >= before.len()
                &&& forall|d: int, k: int| 0 <= d < before.len() && before.is_init(d) && 0 <= k < N
                    ==> #[trigger] self.alpha(d, k) == before.alpha(d, k)
            }),
    {
        let (news, z, a, b, c) = choose|news: Seq<DartIndex>, z: Self, a: Self, b: Self, c: Self| {
            &&& #[trigger] a.copies_created(&z, news)
            &&& news.len() == other.all_darts().len()
            &&& before.same_except_marks(&z)
            &&& z.marks@ == Map::<usize, Vec<bool>>::empty()
            &&& #[trigger] b.links_copied(&a, other, news)
            &&& #[trigger] c.copies_renumbered(&b, news)
            &&& self.ndims == c.ndims
            &&& self.darts@ == c.darts@
            &&& self.dart_index_allocator == c.dart_index_allocator
            &&& self.marks@ == c.marks@
            &&& self.attribute_container_indices@ == c.attribute_container_indices@
            &&& self.attribute_index_allocators@ == c.attribute_index_allocators@
            &&& self.attribute_actions@ == c.attribute_actions@ + c.copy_actions(other, other.all_darts(), news, NA as int)
        };
        let olds = other.all_darts();
        let m = news.len();
        other.lemma_init_darts_below(other.len() as int);
        assert(m <= other.len()) by {
            let od = as_darts(olds);
            assert forall|i: int, j: int| 0 <= i < od.len() && 0 <= j < od.len() && i != j implies od[i] != od[j] by {
                if i < j {
                    assert(olds[i] < olds[j]);
                } else {
                    assert(olds[j] < olds[i]);
                }
            }
            assert(od.no_duplicates());
            crate::iterators::lemma_distinct_bound(od, Seq::<DartIndex>::empty(), other.len() as int);
        }
        let count = before.dart_index_allocator.count;
        let nodes = before.dart_index_allocator.nodes@;
        assert(valid_from(count, nodes, 1)) by {
            assert forall|k: int| #[trigger] crate::index_allocator::free_set_of(nodes).contains(k) implies 1 <= k < count by {
                let j = choose|j: int| 0 <= j < nodes.len() && #[trigger] nodes[j].holds(k);
                assert(1 <= nodes[j].start && nodes[j].end() <= before.len());
            }
        }
        lemma_reserve_run_fresh(count, nodes, 1, m);
        assert(news == reserve_run(count, nodes, m).0);
        // the new darts: where they sit in `news`, and that they are fresh
        assert forall|i: int| 0 <= i < m implies {
            let x = (#[trigger] news[i]).0 as int;
            &&& 0 <= x < self.len()
            &&& self.is_init(x)
            &&& !(x < before.len() && before.is_init(x))
            &&& last_pos(news, x, m as int) == i
        } by {
            let x = news[i].0 as int;
            lemma_last_pos(news, x, m as int);
            let lp = last_pos(news, x, m as int);
            if lp != i {
                if lp < i {
                    assert(news[lp].0 != news[i].0);
                } else {
                    assert(news[i].0 != news[lp].0);
                }
            }
            assert(a.fresh_from(&z, x, lp));
            assert(b.darts@[x].init == a.darts@[x].init);
            assert(c.darts@[x].init == b.darts@[x].init);
            if x < before.len() && before.is_init(x) {
                assert(!allocated_from(count, nodes, 1).contains(x));
                assert(crate::index_allocator::free_set_of(nodes).contains(x));
                assert(before.dart_index_allocator.free_set().contains(x));
            }
        }
        assert forall|i: int, t: int, k: int|
            0 <= i < m && 0 <= t < m && 0 <= k < N && k < N1
            && #[trigger] other.alpha(olds[i], k) == #[trigger] olds[t]
            implies self.alpha(news[i].0 as int, k) == news[t].0 by {
            let x = news[i].0 as int;
            assert(last_pos(news, x, m as int) == i);
            assert(b.copied_links(&a, other, olds, news, x, i));
            assert(b.alpha(x, k) == copy_target(olds, news, other.alpha(olds[i], k)));
            assert(c.darts@[x].alphas@ == b.darts@[x].alphas@);
            assert(self.darts@[x] == c.darts@[x]);
            assert(self.alpha(x, k) == b.alpha(x, k));
            assert(exists|tt: int| 0 <= tt < olds.len() && olds[tt] == olds[t]);
            let tt = choose|tt: int| 0 <= tt < olds.len() && olds[tt] == olds[t];
            if tt != t {
                if tt < t {
                    assert(olds[tt] < olds[t]);
                } else {
                    assert(olds[t] < olds[tt]);
                }
            }
            assert(copy_target(olds, news, olds[t]) == news[t].0);
        }
        assert forall|d: int| 0 <= d < self.len() && #[trigger] self.is_init(d)
            implies (d < before.len() && before.is_init(d)) || exists|i: int| 0 <= i < news.len() && (#[trigger] news[i]).0 == d by {
            lemma_last_pos(news, d, m as int);
            let lp = last_pos(news, d, m as int);
            if lp < 0 {
                assert(d < z.len() && a.dart_unchanged(&z, d));
                assert(b.dart_unchanged(&a, d));
                assert(c.darts@[d].init == b.darts@[d].init);
                assert(z.darts@[d] == before.darts@[d]);
            } else {
                assert(news[lp].0 == d);
            }
        }
        assert forall|d: int| 0 <= d < before.len() && before.is_init(d) implies #[trigger] self.is_init(d) by {
            lemma_last_pos(news, d, m as int);
            let lp = last_pos(news, d, m as int);
            if lp >= 0 {
                assert(news[lp].0 == d);
                assert(!(d < before.len() && before.is_init(d)));
            }
            assert(z.darts@[d] == before.darts@[d]);
            assert(a.dart_unchanged(&z, d));
            assert(b.dart_unchanged(&a, d));
            assert(c.darts@[d].init == b.darts@[d].init);
        }
        assert forall|d: int, k: int| 0 <= d < before.len() && before.is_init(d) && 0 <= k < N
            implies #[trigger] self.alpha(d, k) == before.alpha(d, k) by {
            lemma_last_pos(news, d, m as int);
            let lp = last_pos(news, d, m as int);
            if lp >= 0 {
                assert(news[lp].0 == d);
                assert(!(d < before.len() && before.is_init(d)));
            }
            assert(z.darts@[d] == before.darts@[d]);
            assert(a.dart_unchanged(&z, d));
            assert(b.dart_unchanged(&a, d));
            assert(c.darts@[d].alphas@ == b.darts@[d].alphas@);
        }
        assert(reserve_run(before.dart_index_allocator.count, before.dart_index_allocator.nodes@, olds.len()).0 == news);
    }

    /// Copying keeps the alpha links involutions. Let this map come from
    /// `before` by a successful `copy_from(other)` as above, both maps of
    /// the same dimension with involutive links, and dart 0 of `other`
    /// linked only to itself. Then the links of this map are involutions.
    pub proof fn lemma_copy_keeps_involutive<const N1: usize, const NA1: usize, const NL1: usize>(&self, before: &Self, other: &NGMap<N1, NA1, NL1>)
        requires
            before.wf(),
            other.wf(),
            before.free_indices_unused(),
            before.len() + other.len() + 1 < usize::MAX,
            self.copied_from(before, other),
            before.involutive(),
            other.involutive(),
            other.ndims == before.ndims,
            forall|k: int| 0 <= k < N1 ==> #[trigger] other.alpha(0, k) == 0,
        ensures
            self.involutive(),
    {
        self.lemma_copy_is_isomorphic(before, other);
        let olds = other.all_darts();
        let news = reserve_run(before.dart_index_allocator.count, before.dart_index_allocator.nodes@, olds.len()).0;
        other.lemma_init_darts_below(other.len() as int);
        assert forall|d: int, k: int| 0 <= d < self.len() && self.is_init(d) && 0 <= k < self.ndims implies {
            let e = #[trigger] self.alpha(d, k);
            &&& 0 <= e < self.len()
            &&& self.is_init(e)
            &&& self.alpha(e, k) == d
        } by {
            assert(k < N1 && k < N);
            if d < before.len() && before.is_init(d) {
                let e = before.alpha(d, k);
                assert(self.alpha(d, k) == e);
                assert(0 <= e < before.len() && before.is_init(e) && before.alpha(e, k) == d);
                assert(self.is_init(e));
                assert(self.alpha(e, k) == before.alpha(e, k));
            } else {
                let i = choose|i: int| 0 <= i < news.len() && (#[trigger] news[i]).0 == d;
                let x = olds[i];
                let y = other.alpha(x, k);
                assert(other.is_init(x) && 1 <= x < other.len());
                assert(0 <= y < other.len() && other.is_init(y) && other.alpha(y, k) == x);
                if y == 0 {
                    assert(other.alpha(0, k) == 0);
                }
                let t = choose|t: int| 0 <= t < olds.len() && #[trigger] olds[t] == y;
                assert(other.alpha(olds[i], k) == olds[t]);
                assert(self.alpha(news[i].0 as int, k) == news[t].0);
                assert(other.alpha(olds[t], k) == olds[i]);
                assert(self.alpha(news[t].0 as int, k) == news[i].0);
                let nt = news[t].0 as int;
                assert(0 <= nt < self.len() && self.is_init(nt));
            }
        }
    }
}

} // verus!
