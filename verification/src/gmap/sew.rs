//! Sewing glues two cells together along alpha(i); unsewing undoes it.
//! Sewing is possible for two distinct darts when both are
//! alpha(i)-free and the orbits of both under the links other than
//! alpha(i - 1), alpha(i), alpha(i + 1) are isomorphic, by an isomorphism
//! that sends the first dart to the second (see `orbit_iso`). Sewing then
//! links each dart of the first orbit to its image.

use vstd::prelude::*;
use crate::index::{DartIndex, AttributeIndex};
use crate::orbits::{get_seq_sewing, seq_sewing, seq_without};
use crate::iterators::ids;
use super::{NGMap, AttributeAction};

verus! {

impl<const N: usize, const NA: usize, const NL: usize> NGMap<N, NA, NL> {
    /// alpha(`alpha`) of dart `x` after linking, in turn, the first `m`
    /// pairs of `o1` and `o2` to each other along alpha(`alpha`).
    pub open spec fn sew_value(&self, o1: Seq<DartIndex>, o2: Seq<DartIndex>, alpha: int, x: int, m: int) -> int
        decreases m,
    {
        if m <= 0 {
            self.alpha(x, alpha)
        } else if o2[m - 1].0 == x {
            o1[m - 1].0 as int
        } else if o1[m - 1].0 == x {
            o2[m - 1].0 as int
        } else {
            self.sew_value(o1, o2, alpha, x, m - 1)
        }
    }

    /// Only alpha(`alpha`) links changed since `old`; each dart now has
    /// `f(d)` there.
    pub open spec fn only_alpha_changed(&self, old: &Self, alpha: int) -> bool {
        &&& self.len() == old.len()
        &&& self.same_books(old)
        &&& forall|d: int| 0 <= d < old.len() ==> {
            &&& (#[trigger] self.darts@[d]).init == old.darts@[d].init
            &&& self.darts@[d].attributes@ == old.darts@[d].attributes@
            &&& self.darts@[d].links@ == old.darts@[d].links@
        }
        &&& forall|d: int, k: int| 0 <= d < old.len() && 0 <= k < N && k != alpha ==> #[trigger] self.alpha(d, k) == old.alpha(d, k)
    }

    /// Links the darts of `o1` and `o2` pairwise along alpha(`alpha`), in
    /// order, as far as the shorter listing goes.
    pub fn sew_pairs(&mut self, o1: &Vec<DartIndex>, o2: &Vec<DartIndex>, alpha: usize)
        requires
            old(self).wf(),
            alpha < N,
            forall|i: int| 0 <= i < o1@.len() ==> (#[trigger] o1@[i]).0 < old(self).len(),
            forall|i: int| 0 <= i < o2@.len() ==> (#[trigger] o2@[i]).0 < old(self).len(),
        ensures
            final(self).wf(),
            final(self).only_alpha_changed(old(self), alpha as int),
            forall|x: int| 0 <= x < old(self).len() ==> #[trigger] final(self).alpha(x, alpha as int)
                == old(self).sew_value(o1@, o2@, alpha as int, x, if o1@.len() < o2@.len() { o1@.len() as int } else { o2@.len() as int }),
    {
        let ghost o = *old(self);
        let mut k: usize = 0;
        while k < o1.len() && k < o2.len()
            invariant
                self.wf(),
                o.wf(),
                alpha < N,
                forall|i: int| 0 <= i < o1@.len() ==> (#[trigger] o1@[i]).0 < o.len(),
                forall|i: int| 0 <= i < o2@.len() ==> (#[trigger] o2@[i]).0 < o.len(),
                k <= o1@.len(),
                k <= o2@.len(),
                self.only_alpha_changed(&o, alpha as int),
                forall|x: int| 0 <= x < o.len() ==> #[trigger] self.alpha(x, alpha as int) == o.sew_value(o1@, o2@, alpha as int, x, k as int),
            decreases o1@.len() - k,
        {
            let a = o1[k];
            let b = o2[k];
            let ghost before = *self;
            self.set_dart_alpha(a.0, alpha, b);
            self.set_dart_alpha(b.0, alpha, a);
            k = k + 1;
            proof {
                assert forall|x: int| 0 <= x < o.len() implies #[trigger] self.alpha(x, alpha as int) == o.sew_value(o1@, o2@, alpha as int, x, k as int) by {
                    assert(before.alpha(x, alpha as int) == o.sew_value(o1@, o2@, alpha as int, x, k - 1));
                }
            }
        }
    }

    /// Returns `true` if `dart1` and `dart2` are distinct, both are
    /// alpha(`alpha`)-free and the orbit of the first under the sewing links
    /// is isomorphic to that of the second, by an isomorphism that sends the
    /// first dart to the second; called by `sew`.
    pub fn is_sewable(&self, dart1: &DartIndex, dart2: &DartIndex, alpha: usize) -> (r: bool)
        requires
            self.wf(),
            dart1.0 < self.len(),
            dart2.0 < self.len(),
            alpha < self.ndims,
        ensures
            r == (dart1.0 != dart2.0 && self.free(dart1.0 as int, alpha as int) && self.free(dart2.0 as int, alpha as int)
                && exists|f: Map<int, int>| self.orbit_iso(dart1.0 as int, dart2.0 as int, seq_sewing(alpha as int, self.ndims as int), f)),
    {
        if dart1.0 == dart2.0 || !self.is_free(dart1, alpha) || !self.is_free(dart2, alpha) {
            return false;
        }
        let seq = get_seq_sewing(alpha, self.ndims);
        proof {
            crate::gmap::shapes::lemma_seq_sewing_values(alpha as int, self.ndims as int);
        }
        let (r, _o1, _o2) = self.match_orbits(*dart1, *dart2, &seq);
        r
    }
}

impl<const N: usize, const NA: usize, const NL: usize> NGMap<N, NA, NL> {
    /// `d1` and `d2` lie in the same `idim`-cell of this map.
    pub open spec fn same_cell(&self, d1: int, d2: int, idim: int) -> bool {
        d1 == d2 || self.cell(d1, idim).contains(d2)
    }

    /// Sewing from this map to `post` (same attributes, new alpha links)
    /// merges the `idim`-cells of `d1` and `d2`: they have a live attribute
    /// container and the sewing changed whether they share their
    /// `idim`-cell.
    pub open spec fn sew_merges_cell(&self, post: &Self, d1: int, d2: int, idim: int) -> bool {
        self.has_container(idim) && self.same_cell(d1, d2, idim) != post.same_cell(d1, d2, idim)
    }

    /// The merge actions of a sewing for the dimensions below `k`.
    pub open spec fn sew_merge_actions(&self, post: &Self, d1: int, d2: int, k: int) -> Seq<AttributeAction>
        decreases k,
    {
        if k <= 0 {
            Seq::empty()
        } else {
            self.sew_merge_actions(post, d1, d2, k - 1) + (if self.sew_merges_cell(post, d1, d2, k - 1) {
                let s = self.slot_of(k - 1).unwrap();
                seq![AttributeAction::Merge {
                    slot: s,
                    old0: self.attr_index(d1, k - 1),
                    old1: self.attr_index(d2, k - 1),
                    new: AttributeIndex(self.slot_count(s as int) as usize),
                }]
            } else {
                Seq::empty()
            })
        }
    }

    /// Slot `s` holds the container of a dimension below `k` whose cells a
    /// sewing merges.
    pub open spec fn merged_slot(&self, post: &Self, d1: int, d2: int, s: int, k: int) -> bool {
        exists|idim: int| 0 <= idim < k && self.sew_merges_cell(post, d1, d2, idim) && #[trigger] self.slot_of(idim) == Some(s as usize)
    }

    /// Dart `d` takes, in slot `s`, the merged attribute of a sewing.
    pub open spec fn merged_in_slot(&self, post: &Self, d1: int, d2: int, s: int, k: int, d: int) -> bool {
        exists|idim: int|
            0 <= idim < k && self.sew_merges_cell(post, d1, d2, idim) && #[trigger] self.slot_of(idim) == Some(s as usize)
                && post.cell(d1, idim).contains(d)
    }

    /// Going from dimensions below `idim` to dimensions below `idim + 1`
    /// adds what `idim` merges.
    pub proof fn lemma_merged_step(&self, post: &Self, d1: int, d2: int, idim: int)
        requires
            idim >= 0,
        ensures
            forall|s: int| #[trigger] self.merged_slot(post, d1, d2, s, idim + 1) == (self.merged_slot(post, d1, d2, s, idim)
                || (self.sew_merges_cell(post, d1, d2, idim) && self.slot_of(idim) == Some(s as usize))),
            forall|s: int, d: int| #[trigger] self.merged_in_slot(post, d1, d2, s, idim + 1, d) == (self.merged_in_slot(post, d1, d2, s, idim, d)
                || (self.sew_merges_cell(post, d1, d2, idim) && self.slot_of(idim) == Some(s as usize) && post.cell(d1, idim).contains(d))),
    {
        assert forall|s: int| #[trigger] self.merged_slot(post, d1, d2, s, idim + 1) == (self.merged_slot(post, d1, d2, s, idim)
            || (self.sew_merges_cell(post, d1, d2, idim) && self.slot_of(idim) == Some(s as usize))) by {
            if self.merged_slot(post, d1, d2, s, idim + 1) {
                let i = choose|i: int| 0 <= i < idim + 1 && self.sew_merges_cell(post, d1, d2, i) && #[trigger] self.slot_of(i) == Some(s as usize);
                if i < idim {
                    assert(self.merged_slot(post, d1, d2, s, idim));
                }
            }
            if self.sew_merges_cell(post, d1, d2, idim) && self.slot_of(idim) == Some(s as usize) {
                assert(self.merged_slot(post, d1, d2, s, idim + 1));
            }
            if self.merged_slot(post, d1, d2, s, idim) {
                let i = choose|i: int| 0 <= i < idim && self.sew_merges_cell(post, d1, d2, i) && #[trigger] self.slot_of(i) == Some(s as usize);
                assert(self.merged_slot(post, d1, d2, s, idim + 1));
            }
        }
        assert forall|s: int, d: int| #[trigger] self.merged_in_slot(post, d1, d2, s, idim + 1, d) == (self.merged_in_slot(post, d1, d2, s, idim, d)
            || (self.sew_merges_cell(post, d1, d2, idim) && self.slot_of(idim) == Some(s as usize) && post.cell(d1, idim).contains(d))) by {
            if self.merged_in_slot(post, d1, d2, s, idim + 1, d) {
                let i = choose|i: int| 0 <= i < idim + 1 && self.sew_merges_cell(post, d1, d2, i) && #[trigger] self.slot_of(i) == Some(s as usize)
                    && post.cell(d1, i).contains(d);
                if i < idim {
                    assert(self.merged_in_slot(post, d1, d2, s, idim, d));
                }
            }
            if self.sew_merges_cell(post, d1, d2, idim) && self.slot_of(idim) == Some(s as usize) && post.cell(d1, idim).contains(d) {
                assert(self.merged_in_slot(post, d1, d2, s, idim + 1, d));
            }
            if self.merged_in_slot(post, d1, d2, s, idim, d) {
                let i = choose|i: int| 0 <= i < idim && self.sew_merges_cell(post, d1, d2, i) && #[trigger] self.slot_of(i) == Some(s as usize)
                    && post.cell(d1, i).contains(d);
                assert(self.merged_in_slot(post, d1, d2, s, idim + 1, d));
            }
        }
    }

    /// The slot of `idim` is not the slot of a smaller dimension.
    pub proof fn lemma_slot_unshared(&self, post: &Self, d1: int, d2: int, idim: int)
        requires
            self.wf(),
            0 <= idim < N,
            self.slot_of(idim) is Some,
        ensures
            !self.merged_slot(post, d1, d2, self.slot_of(idim).unwrap() as int, idim),
            forall|d: int| !self.merged_in_slot(post, d1, d2, self.slot_of(idim).unwrap() as int, idim, d),
    {
        let s = self.slot_of(idim).unwrap();
        if self.merged_slot(post, d1, d2, s as int, idim) {
            let i = choose|i: int| 0 <= i < idim && self.sew_merges_cell(post, d1, d2, i) && #[trigger] self.slot_of(i) == Some(s);
            assert(self.attribute_container_indices@.contains_key(i as usize));
            assert(self.attribute_container_indices@[i as usize] == self.attribute_container_indices@[idim as usize]);
            assert(i as usize != idim as usize);
        }
        assert forall|d: int| !self.merged_in_slot(post, d1, d2, s as int, idim, d) by {
            if self.merged_in_slot(post, d1, d2, s as int, idim, d) {
                let i = choose|i: int| 0 <= i < idim && self.sew_merges_cell(post, d1, d2, i) && #[trigger] self.slot_of(i) == Some(s)
                    && post.cell(d1, i).contains(d);
                assert(self.attribute_container_indices@.contains_key(i as usize));
                assert(self.attribute_container_indices@[i as usize] == self.attribute_container_indices@[idim as usize]);
                assert(i as usize != idim as usize);
            }
        }
    }

    /// Two sewing results with the same cells around `d1` merge the same
    /// cells.
    pub proof fn lemma_post_equiv(&self, p: &Self, q: &Self, d1: int, d2: int)
        requires
            forall|j: int| 0 <= j < N ==> #[trigger] q.cell(d1, j) == p.cell(d1, j),
        ensures
            forall|s: int| 0 <= s < NA ==> #[trigger] self.merged_slot(q, d1, d2, s, N as int) == self.merged_slot(p, d1, d2, s, N as int),
            forall|s: int, d: int| 0 <= s < NA ==> #[trigger] self.merged_in_slot(q, d1, d2, s, N as int, d) == self.merged_in_slot(p, d1, d2, s, N as int, d),
            self.sew_merge_actions(q, d1, d2, N as int) == self.sew_merge_actions(p, d1, d2, N as int),
    {
        assert forall|j: int| 0 <= j < N implies #[trigger] self.sew_merges_cell(q, d1, d2, j) == self.sew_merges_cell(p, d1, d2, j) by {
            assert(q.cell(d1, j) == p.cell(d1, j));
        }
        assert forall|s: int| 0 <= s < NA implies #[trigger] self.merged_slot(q, d1, d2, s, N as int) == self.merged_slot(p, d1, d2, s, N as int) by {
            if self.merged_slot(q, d1, d2, s, N as int) {
                let i = choose|i: int| 0 <= i < N && self.sew_merges_cell(q, d1, d2, i) && #[trigger] self.slot_of(i) == Some(s as usize);
                assert(self.sew_merges_cell(p, d1, d2, i));
            }
            if self.merged_slot(p, d1, d2, s, N as int) {
                let i = choose|i: int| 0 <= i < N && self.sew_merges_cell(p, d1, d2, i) && #[trigger] self.slot_of(i) == Some(s as usize);
                assert(self.sew_merges_cell(q, d1, d2, i));
            }
        }
        assert forall|s: int, d: int| 0 <= s < NA implies #[trigger] self.merged_in_slot(q, d1, d2, s, N as int, d) == self.merged_in_slot(p, d1, d2, s, N as int, d) by {
            if self.merged_in_slot(q, d1, d2, s, N as int, d) {
                let i = choose|i: int| 0 <= i < N && self.sew_merges_cell(q, d1, d2, i) && #[trigger] self.slot_of(i) == Some(s as usize)
                    && q.cell(d1, i).contains(d);
                assert(self.sew_merges_cell(p, d1, d2, i));
            }
            if self.merged_in_slot(p, d1, d2, s, N as int, d) {
                let i = choose|i: int| 0 <= i < N && self.sew_merges_cell(p, d1, d2, i) && #[trigger] self.slot_of(i) == Some(s as usize)
                    && p.cell(d1, i).contains(d);
                assert(self.sew_merges_cell(q, d1, d2, i));
            }
        }
        self.lemma_merge_actions_equiv(p, q, d1, d2, N as int);
    }

    /// Merge actions only depend on which cells merge.
    pub proof fn lemma_merge_actions_equiv(&self, p: &Self, q: &Self, d1: int, d2: int, k: int)
        requires
            k <= N,
            forall|j: int| 0 <= j < N ==> #[trigger] self.sew_merges_cell(q, d1, d2, j) == self.sew_merges_cell(p, d1, d2, j),
        ensures
            self.sew_merge_actions(q, d1, d2, k) == self.sew_merge_actions(p, d1, d2, k),
        decreases k,
    {
        if k > 0 {
            self.lemma_merge_actions_equiv(p, q, d1, d2, k - 1);
            assert(self.sew_merges_cell(q, d1, d2, k - 1) == self.sew_merges_cell(p, d1, d2, k - 1));
        }
    }

    /// Glues the cells of `dart1` and `dart2` along alpha(`alpha`) if
    /// `is_sewable` allows it: each dart of the orbit of `dart1` under the
    /// sewing links is linked by alpha(`alpha`) to its image under the
    /// isomorphism (where the two orbits share darts, the pairs are linked in
    /// the order of a walk of the first orbit, a later one overriding an
    /// earlier one). Cells that become one
    /// merge their attributes under a fresh attribute index. Returns `false`,
    /// changing nothing, if sewing is not possible.
    pub fn sew(&mut self, dart1: &DartIndex, dart2: &DartIndex, alpha: usize) -> (r: bool)
        requires
            old(self).wf(),
            dart1.0 < old(self).len(),
            dart2.0 < old(self).len(),
            alpha < old(self).ndims,
            old(self).attribute_room(N as int),
        ensures
            final(self).wf(),
            r == (dart1.0 != dart2.0 && old(self).free(dart1.0 as int, alpha as int) && old(self).free(dart2.0 as int, alpha as int)
                && exists|f: Map<int, int>| old(self).orbit_iso(dart1.0 as int, dart2.0 as int, seq_sewing(alpha as int, old(self).ndims as int), f)),
            r ==> exists|p1: Seq<DartIndex>, p2: Seq<DartIndex>| {
                &&& old(self).is_orbit(dart1.0 as int, seq_sewing(alpha as int, old(self).ndims as int), p1)
                &&& old(self).is_orbit(dart2.0 as int, seq_sewing(alpha as int, old(self).ndims as int), p2)
                &&& p1.len() == p2.len()
                &&& forall|f: Map<int, int>, k: int| #[trigger] old(self).orbit_iso(dart1.0 as int, dart2.0 as int, seq_sewing(alpha as int, old(self).ndims as int), f)
                    && 0 <= k < p1.len() ==> f[(#[trigger] p1[k]).0 as int] == p2[k].0
                &&& forall|x: int| 0 <= x < old(self).len() ==> #[trigger] final(self).alpha(x, alpha as int)
                    == old(self).sew_value(p1, p2, alpha as int, x, p1.len() as int)
            },
            ({
                let iseq = seq_sewing(alpha as int, old(self).ndims as int);
                r && old(self).orbit_set(dart1.0 as int, iseq).disjoint(old(self).orbit_set(dart2.0 as int, iseq))
            }) ==> forall|f: Map<int, int>, x: int|
                #![trigger old(self).orbit_iso(dart1.0 as int, dart2.0 as int, seq_sewing(alpha as int, old(self).ndims as int), f), final(self).alpha(x, alpha as int)]
                old(self).orbit_iso(dart1.0 as int, dart2.0 as int, seq_sewing(alpha as int, old(self).ndims as int), f) && 0 <= x < old(self).len() ==> {
                    let iseq = seq_sewing(alpha as int, old(self).ndims as int);
                    let y = final(self).alpha(x, alpha as int);
                    &&& old(self).orbit_set(dart1.0 as int, iseq).contains(x) ==> y == f[x]
                    &&& old(self).orbit_set(dart2.0 as int, iseq).contains(x) ==> f.contains_key(y) && f[y] == x
                    &&& !old(self).orbit_set(dart1.0 as int, iseq).contains(x) && !old(self).orbit_set(dart2.0 as int, iseq).contains(x)
                        ==> y == old(self).alpha(x, alpha as int)
                },
            ({
                let iseq = seq_sewing(alpha as int, old(self).ndims as int);
                &&& r
                &&& old(self).involutive()
                &&& old(self).is_init(dart1.0 as int)
                &&& old(self).is_init(dart2.0 as int)
                &&& old(self).orbit_set(dart1.0 as int, iseq).disjoint(old(self).orbit_set(dart2.0 as int, iseq))
                &&& forall|x: int| old(self).orbit_set(dart1.0 as int, iseq).contains(x) || old(self).orbit_set(dart2.0 as int, iseq).contains(x)
                    ==> #[trigger] old(self).free(x, alpha as int)
            }) ==> final(self).involutive(),
            !r ==> *final(self) == *old(self),
            r && old(self).involutive() && old(self).is_init(dart1.0 as int) && old(self).is_init(dart2.0 as int)
                && old(self).plain_under(dart1.0 as int, seq_sewing(alpha as int, old(self).ndims as int))
                && old(self).plain_under(dart2.0 as int, seq_sewing(alpha as int, old(self).ndims as int))
                ==> final(self).involutive(),
            r ==> {
                &&& final(self).len() == old(self).len()
                &&& final(self).ndims == old(self).ndims
                &&& final(self).dart_index_allocator == old(self).dart_index_allocator
                &&& final(self).marks@ == old(self).marks@
                &&& final(self).attribute_container_indices@ == old(self).attribute_container_indices@
                &&& forall|d: int, k: int| 0 <= d < old(self).len() && 0 <= k < N && k != alpha ==> #[trigger] final(self).alpha(d, k) == old(self).alpha(d, k)
                &&& forall|d: int| 0 <= d < old(self).len() ==> (#[trigger] final(self).darts@[d]).init == old(self).darts@[d].init
                    && final(self).darts@[d].links@ == old(self).darts@[d].links@
                &&& forall|d: int, s: int| 0 <= d < old(self).len() && 0 <= s < NA ==> #[trigger] final(self).attr(d, s) == (
                    if old(self).merged_in_slot(final(self), dart1.0 as int, dart2.0 as int, s, N as int, d) {
                        AttributeIndex(old(self).slot_count(s) as usize)
                    } else {
                        old(self).attr(d, s)
                    })
                &&& forall|s: int| 0 <= s < NA ==> (#[trigger] final(self).attribute_index_allocators@[s] is Some) == (old(self).attribute_index_allocators@[s] is Some)
                &&& forall|s: int| 0 <= s < NA ==> #[trigger] final(self).slot_count(s) == old(self).slot_count(s)
                    + (if old(self).merged_slot(final(self), dart1.0 as int, dart2.0 as int, s, N as int) { 1int } else { 0 })
                &&& final(self).attribute_actions@ == old(self).attribute_actions@ + old(self).sew_merge_actions(final(self), dart1.0 as int, dart2.0 as int, N as int)
            },
    {
        if dart1.0 == dart2.0 || !self.is_free(dart1, alpha) || !self.is_free(dart2, alpha) {
            return false;
        }
        let seq = get_seq_sewing(alpha, self.ndims);
        proof {
            crate::gmap::shapes::lemma_seq_sewing_values(alpha as int, self.ndims as int);
        }
        let (m, o1, o2) = self.match_orbits(*dart1, *dart2, &seq);
        if !m {
            return false;
        }
        let ghost o = *old(self);
        let mut same_cell_1: Vec<bool> = Vec::new();
        let mut i: usize = 0;
        while i < N
            invariant
                self.wf(),
                *self == o,
                dart1.0 < self.len(),
                i <= N,
                same_cell_1@.len() == i,
                forall|j: int| 0 <= j < i ==> #[trigger] same_cell_1@[j] == o.same_cell(dart1.0 as int, dart2.0 as int, j),
            decreases N - i,
        {
            same_cell_1.push(self.darts_in_same_cell(dart1, dart2, i));
            i = i + 1;
        }
        self.sew_pairs(&o1, &o2, alpha);
        let ghost mid = *self;
        let mut same_cell_2: Vec<bool> = Vec::new();
        let mut i: usize = 0;
        while i < N
            invariant
                self.wf(),
                *self == mid,
                dart1.0 < self.len(),
                i <= N,
                same_cell_2@.len() == i,
                forall|j: int| 0 <= j < i ==> #[trigger] same_cell_2@[j] == mid.same_cell(dart1.0 as int, dart2.0 as int, j),
            decreases N - i,
        {
            same_cell_2.push(self.darts_in_same_cell(dart1, dart2, i));
            i = i + 1;
        }
        proof {
            assert(o.sew_merge_actions(&mid, dart1.0 as int, dart2.0 as int, 0) =~= Seq::<AttributeAction>::empty());
        }
        let mut idim: usize = 0;
        while idim < N
            invariant
                self.wf(),
                o.wf(),
                mid.wf(),
                dart1.0 < o.len(),
                dart2.0 < o.len(),
                idim <= N,
                o.attribute_room(N as int),
                same_cell_1@.len() == N,
                same_cell_2@.len() == N,
                forall|j: int| 0 <= j < N ==> #[trigger] same_cell_1@[j] == o.same_cell(dart1.0 as int, dart2.0 as int, j),
                forall|j: int| 0 <= j < N ==> #[trigger] same_cell_2@[j] == mid.same_cell(dart1.0 as int, dart2.0 as int, j),
                mid.only_alpha_changed(&o, alpha as int),
                self.len() == o.len(),
                self.ndims == o.ndims,
                self.dart_index_allocator == o.dart_index_allocator,
                self.marks@ == o.marks@,
                self.attribute_container_indices@ == o.attribute_container_indices@,
                forall|d: int, k: int| 0 <= d < o.len() && 0 <= k < N ==> #[trigger] self.alpha(d, k) == mid.alpha(d, k),
                forall|d: int| 0 <= d < o.len() ==> (#[trigger] self.darts@[d]).init == o.darts@[d].init
                    && self.darts@[d].links@ == o.darts@[d].links@,
                forall|s: int| 0 <= s < NA ==> (#[trigger] self.attribute_index_allocators@[s] is Some) == (o.attribute_index_allocators@[s] is Some),
                forall|d: int, s: int| 0 <= d < o.len() && 0 <= s < NA ==> #[trigger] self.attr(d, s) == (
                    if o.merged_in_slot(&mid, dart1.0 as int, dart2.0 as int, s, idim as int, d) {
                        AttributeIndex(o.slot_count(s) as usize)
                    } else {
                        o.attr(d, s)
                    }),
                forall|s: int| 0 <= s < NA ==> #[trigger] self.slot_count(s) == o.slot_count(s)
                    + (if o.merged_slot(&mid, dart1.0 as int, dart2.0 as int, s, idim as int) { 1int } else { 0 }),
                self.attribute_actions@ == o.attribute_actions@ + o.sew_merge_actions(&mid, dart1.0 as int, dart2.0 as int, idim as int),
            decreases N - idim,
        {
            let ghost before = *self;
            proof {
                assert(self.attribute_room(1)) by {
                    assert forall|s: int| 0 <= s < NA && self.attribute_index_allocators@[s] is Some implies
                        #[trigger] self.attribute_index_allocators@[s].unwrap().count + 1 <= usize::MAX by {
                        assert(self.slot_count(s) == self.attribute_index_allocators@[s].unwrap().count);
                        assert(o.attribute_index_allocators@[s] is Some);
                        assert(o.slot_count(s) == o.attribute_index_allocators@[s].unwrap().count);
                    }
                }
                assert(self.has_container(idim as int) == o.has_container(idim as int));
                mid.lemma_same_alphas_same_orbits(self, seq_without(idim as int, N as int));
            }
            proof {
                o.lemma_merged_step(&mid, dart1.0 as int, dart2.0 as int, idim as int);
                assert(o.has_container(idim as int) == o.slot_of(idim as int) is Some);
            }
            if self.has_attribute_container(idim) && same_cell_1[idim] != same_cell_2[idim] {
                proof {
                    let s = o.slot_of(idim as int).unwrap() as int;
                    o.lemma_slot_unshared(&mid, dart1.0 as int, dart2.0 as int, idim as int);
                    assert(before.slot_count(s) == o.slot_count(s));
                    assert(before.attr(dart1.0 as int, s) == o.attr(dart1.0 as int, s));
                    assert(before.attr(dart2.0 as int, s) == o.attr(dart2.0 as int, s));
                }
                self.merge_attributes(dart1, dart2, idim);
                proof {
                    let s = o.slot_of(idim as int).unwrap() as int;
                    assert(self.attribute_actions@ =~= o.attribute_actions@ + o.sew_merge_actions(&mid, dart1.0 as int, dart2.0 as int, idim + 1));
                    assert forall|s2: int| 0 <= s2 < NA implies #[trigger] self.slot_count(s2) == o.slot_count(s2)
                        + (if o.merged_slot(&mid, dart1.0 as int, dart2.0 as int, s2, idim + 1) { 1int } else { 0 }) by {
                        assert(before.slot_count(s2) == o.slot_count(s2) + (if o.merged_slot(&mid, dart1.0 as int, dart2.0 as int, s2, idim as int) { 1int } else { 0 }));
                        if s2 != s {
                            assert(self.attribute_index_allocators@[s2] == before.attribute_index_allocators@[s2]);
                        }
                    }
                    assert forall|s2: int| 0 <= s2 < NA implies (#[trigger] self.attribute_index_allocators@[s2] is Some) == (o.attribute_index_allocators@[s2] is Some) by {
                        if s2 != s {
                            assert(self.attribute_index_allocators@[s2] == before.attribute_index_allocators@[s2]);
                        }
                    }
                    assert forall|d: int, s2: int| 0 <= d < o.len() && 0 <= s2 < NA implies #[trigger] self.attr(d, s2) == (
                        if o.merged_in_slot(&mid, dart1.0 as int, dart2.0 as int, s2, idim + 1, d) {
                            AttributeIndex(o.slot_count(s2) as usize)
                        } else {
                            o.attr(d, s2)
                        }) by {
                        assert(before.attr(d, s2) == (
                            if o.merged_in_slot(&mid, dart1.0 as int, dart2.0 as int, s2, idim as int, d) {
                                AttributeIndex(o.slot_count(s2) as usize)
                            } else {
                                o.attr(d, s2)
                            }));
                        if s2 != s {
                            assert(self.darts@[d].attributes@[s2] == before.darts@[d].attributes@[s2]);
                        }
                    }
                    assert forall|d: int, k: int| 0 <= d < o.len() && 0 <= k < N implies #[trigger] self.alpha(d, k) == mid.alpha(d, k) by {
                        assert(self.darts@[d].alphas@ == before.darts@[d].alphas@);
                        assert(before.alpha(d, k) == mid.alpha(d, k));
                    }
                    assert forall|d: int| 0 <= d < o.len() implies (#[trigger] self.darts@[d]).init == o.darts@[d].init
                        && self.darts@[d].links@ == o.darts@[d].links@ by {
                        assert(self.darts@[d].init == before.darts@[d].init);
                        assert(before.darts@[d].init == o.darts@[d].init);
                    }
                }
            } else {
                proof {
                    assert(!o.sew_merges_cell(&mid, dart1.0 as int, dart2.0 as int, idim as int));
                    assert(self.attribute_actions@ =~= o.attribute_actions@ + o.sew_merge_actions(&mid, dart1.0 as int, dart2.0 as int, idim + 1));
                }
            }
            idim = idim + 1;
        }
        proof {
            assert forall|j: int| 0 <= j < N implies #[trigger] self.cell(dart1.0 as int, j) == mid.cell(dart1.0 as int, j) by {
                mid.lemma_same_alphas_same_orbits(self, seq_without(j, N as int));
            }
            o.lemma_post_equiv(&mid, self, dart1.0 as int, dart2.0 as int);
            assert forall|x: int| 0 <= x < o.len() implies #[trigger] self.alpha(x, alpha as int)
                == o.sew_value(o1@, o2@, alpha as int, x, o1@.len() as int) by {
                assert(mid.alpha(x, alpha as int) == self.alpha(x, alpha as int));
            }
            let iseq = seq_sewing(alpha as int, o.ndims as int);
            assert forall|k: int| 0 <= k < o1@.len() implies #[trigger] ids(o1@).contains(o1@[k].0 as int) && ids(o2@).contains(o2@[k].0 as int) by {}
            o.lemma_orbit_ids(dart1.0 as int, iseq, o1@);
            o.lemma_orbit_ids(dart2.0 as int, iseq, o2@);
            if o.orbit_set(dart1.0 as int, iseq).disjoint(o.orbit_set(dart2.0 as int, iseq)) {
                o.lemma_sew_value_at(o1@, o2@, alpha as int, o1@.len() as int);
                assert forall|f: Map<int, int>, x: int|
                    #![trigger o.orbit_iso(dart1.0 as int, dart2.0 as int, iseq, f), self.alpha(x, alpha as int)]
                    o.orbit_iso(dart1.0 as int, dart2.0 as int, iseq, f) && 0 <= x < o.len() implies {
                        let y = self.alpha(x, alpha as int);
                        &&& o.orbit_set(dart1.0 as int, iseq).contains(x) ==> y == f[x]
                        &&& o.orbit_set(dart2.0 as int, iseq).contains(x) ==> f.contains_key(y) && f[y] == x
                        &&& !o.orbit_set(dart1.0 as int, iseq).contains(x) && !o.orbit_set(dart2.0 as int, iseq).contains(x)
                            ==> y == o.alpha(x, alpha as int)
                    } by {
                    if o.orbit_set(dart1.0 as int, iseq).contains(x) {
                        let i = choose|i: int| 0 <= i < o1@.len() && (#[trigger] o1@[i]).0 == x;
                        assert(f[o1@[i].0 as int] == o2@[i].0);
                    }
                    if o.orbit_set(dart2.0 as int, iseq).contains(x) {
                        let i = choose|i: int| 0 <= i < o2@.len() && (#[trigger] o2@[i]).0 == x;
                        assert(f[o1@[i].0 as int] == o2@[i].0);
                        assert(ids(o1@).contains(o1@[i].0 as int));
                    }
                    if !o.orbit_set(dart1.0 as int, iseq).contains(x) && !o.orbit_set(dart2.0 as int, iseq).contains(x) {
                        let m = o1@.len() as int;
                        if Self::in_prefix(o1@, x, m) {
                            let i = choose|i: int| 0 <= i < m && i < o1@.len() && (#[trigger] o1@[i]).0 == x;
                            assert(ids(o1@).contains(x));
                        }
                        if Self::in_prefix(o2@, x, m) {
                            let i = choose|i: int| 0 <= i < m && i < o2@.len() && (#[trigger] o2@[i]).0 == x;
                            assert(ids(o2@).contains(x));
                        }
                        o.lemma_sew_value_outside(o1@, o2@, alpha as int, x, m);
                    }
                }
                if o.involutive() && o.is_init(dart1.0 as int) && o.is_init(dart2.0 as int)
                    && forall|x: int| o.orbit_set(dart1.0 as int, iseq).contains(x) || o.orbit_set(dart2.0 as int, iseq).contains(x)
                        ==> #[trigger] o.free(x, alpha as int) {
                    assert forall|i: int| 0 <= i < o1@.len() implies o.free((#[trigger] o1@[i]).0 as int, alpha as int) by {
                        assert(ids(o1@).contains(o1@[i].0 as int));
                    }
                    assert forall|i: int| 0 <= i < o2@.len() implies o.free((#[trigger] o2@[i]).0 as int, alpha as int) by {
                        assert(ids(o2@).contains(o2@[i].0 as int));
                    }
                    assert forall|x: int, k: int| 0 <= x < o.len() && 0 <= k < N && k != alpha implies #[trigger] self.alpha(x, k) == o.alpha(x, k) by {
                        assert(self.alpha(x, k) == mid.alpha(x, k));
                    }
                    Self::lemma_sew_keeps_involutive(&o, self, dart1.0 as int, dart2.0 as int, alpha as int, o1@, o2@);
                }
            }
            if o.involutive() && o.is_init(dart1.0 as int) && o.is_init(dart2.0 as int)
                && o.plain_under(dart1.0 as int, iseq) && o.plain_under(dart2.0 as int, iseq) {
                o.lemma_plain_orbit(dart1.0 as int, iseq, o1@);
                o.lemma_plain_orbit(dart2.0 as int, iseq, o2@);
                assert forall|x: int| 0 <= x < o.len() implies #[trigger] self.alpha(x, alpha as int) == (
                    if x == dart2.0 { dart1.0 as int } else if x == dart1.0 { dart2.0 as int } else { o.alpha(x, alpha as int) }) by {
                    assert(o.sew_value(o1@, o2@, alpha as int, x, 0) == o.alpha(x, alpha as int));
                }
                assert forall|x: int, k: int| 0 <= x < o.len() && 0 <= k < N && k != alpha implies #[trigger] self.alpha(x, k) == o.alpha(x, k) by {
                    assert(self.alpha(x, k) == mid.alpha(x, k));
                }
                Self::lemma_link_pair_keeps_involutive(&o, self, dart1.0 as int, dart2.0 as int, alpha as int);
            }
        }
        true
    }
}

impl<const N: usize, const NA: usize, const NL: usize> NGMap<N, NA, NL> {
    /// `x` is one of the first `m` darts of `p`.
    pub open spec fn in_prefix(p: Seq<DartIndex>, x: int, m: int) -> bool {
        exists|i: int| 0 <= i < m && i < p.len() && (#[trigger] p[i]).0 == x
    }

    /// Unglues the cells of `dart1` and `dart2` along alpha(`alpha`): the
    /// darts of both orbits under the sewing links, taken pairwise, become
    /// alpha(`alpha`)-free.
    pub fn unsew(&mut self, dart1: &DartIndex, dart2: &DartIndex, alpha: usize)
        requires
            old(self).wf(),
            dart1.0 < old(self).len(),
            dart2.0 < old(self).len(),
            alpha < N,
        ensures
            final(self).wf(),
            final(self).only_alpha_changed(old(self), alpha as int),
            exists|p1: Seq<DartIndex>, p2: Seq<DartIndex>| {
                &&& #[trigger] old(self).is_orbit(dart1.0 as int, seq_sewing(alpha as int, N as int), p1)
                &&& #[trigger] old(self).is_orbit(dart2.0 as int, seq_sewing(alpha as int, N as int), p2)
                &&& forall|x: int| 0 <= x < old(self).len() ==> #[trigger] final(self).alpha(x, alpha as int) == (
                    if Self::in_prefix(p1, x, p2.len() as int) || Self::in_prefix(p2, x, p1.len() as int) { x } else { old(self).alpha(x, alpha as int) })
            },
            (exists|q1: Seq<DartIndex>, q2: Seq<DartIndex>| {
                &&& old(self).is_orbit(dart1.0 as int, seq_sewing(alpha as int, N as int), q1)
                &&& old(self).is_orbit(dart2.0 as int, seq_sewing(alpha as int, N as int), q2)
                &&& q1.len() == q2.len()
            }) ==> forall|x: int| 0 <= x < old(self).len() ==> #[trigger] final(self).alpha(x, alpha as int) == (
                if old(self).orbit_set(dart1.0 as int, seq_sewing(alpha as int, N as int)).contains(x)
                    || old(self).orbit_set(dart2.0 as int, seq_sewing(alpha as int, N as int)).contains(x) { x } else { old(self).alpha(x, alpha as int) }),
    {
        let ghost o = *old(self);
        let seq = get_seq_sewing(alpha, N);
        let o1 = self.orbit_darts(*dart1, seq.as_slice());
        let o2 = self.orbit_darts(*dart2, seq.as_slice());
        let mut k: usize = 0;
        while k < o1.len() && k < o2.len()
            invariant
                self.wf(),
                o.wf(),
                alpha < N,
                forall|i: int| 0 <= i < o1@.len() ==> (#[trigger] o1@[i]).0 < o.len(),
                forall|i: int| 0 <= i < o2@.len() ==> (#[trigger] o2@[i]).0 < o.len(),
                k <= o1@.len(),
                k <= o2@.len(),
                self.only_alpha_changed(&o, alpha as int),
                forall|x: int| 0 <= x < o.len() ==> #[trigger] self.alpha(x, alpha as int) == (
                    if Self::in_prefix(o1@, x, k as int) || Self::in_prefix(o2@, x, k as int) { x } else { o.alpha(x, alpha as int) }),
            decreases o1@.len() - k,
        {
            let a = o1[k];
            let b = o2[k];
            let ghost before = *self;
            self.set_dart_alpha(a.0, alpha, a);
            self.set_dart_alpha(b.0, alpha, b);
            k = k + 1;
            proof {
                assert forall|x: int| 0 <= x < o.len() implies #[trigger] self.alpha(x, alpha as int) == (
                    if Self::in_prefix(o1@, x, k as int) || Self::in_prefix(o2@, x, k as int) { x } else { o.alpha(x, alpha as int) }) by {
                    assert(before.alpha(x, alpha as int) == (
                        if Self::in_prefix(o1@, x, k - 1) || Self::in_prefix(o2@, x, k - 1) { x } else { o.alpha(x, alpha as int) }));
                    if x == a.0 {
                        assert(o1@[k - 1].0 == x);
                        assert(Self::in_prefix(o1@, x, k as int));
                    } else if x == b.0 {
                        assert(o2@[k - 1].0 == x);
                        assert(Self::in_prefix(o2@, x, k as int));
                    } else {
                        if Self::in_prefix(o1@, x, k as int) {
                            let i = choose|i: int| 0 <= i < k && i < o1@.len() && (#[trigger] o1@[i]).0 == x;
                            assert(Self::in_prefix(o1@, x, k - 1));
                        }
                        if Self::in_prefix(o2@, x, k as int) {
                            let i = choose|i: int| 0 <= i < k && i < o2@.len() && (#[trigger] o2@[i]).0 == x;
                            assert(Self::in_prefix(o2@, x, k - 1));
                        }
                        if Self::in_prefix(o1@, x, k - 1) {
                            let i = choose|i: int| 0 <= i < k - 1 && i < o1@.len() && (#[trigger] o1@[i]).0 == x;
                            assert(Self::in_prefix(o1@, x, k as int));
                        }
                        if Self::in_prefix(o2@, x, k - 1) {
                            let i = choose|i: int| 0 <= i < k - 1 && i < o2@.len() && (#[trigger] o2@[i]).0 == x;
                            assert(Self::in_prefix(o2@, x, k as int));
                        }
                    }
                }
            }
        }
        proof {
            let m1 = o1@.len() as int;
            let m2 = o2@.len() as int;
            let iseq = seq_sewing(alpha as int, N as int);
            o.lemma_orbit_ids(dart1.0 as int, iseq, o1@);
            o.lemma_orbit_ids(dart2.0 as int, iseq, o2@);
            if exists|q1: Seq<DartIndex>, q2: Seq<DartIndex>| {
                &&& o.is_orbit(dart1.0 as int, iseq, q1)
                &&& o.is_orbit(dart2.0 as int, iseq, q2)
                &&& q1.len() == q2.len()
            } {
                let (q1, q2) = choose|q1: Seq<DartIndex>, q2: Seq<DartIndex>| {
                    &&& o.is_orbit(dart1.0 as int, iseq, q1)
                    &&& o.is_orbit(dart2.0 as int, iseq, q2)
                    &&& q1.len() == q2.len()
                };
                o.lemma_orbit_ids(dart1.0 as int, iseq, q1);
                o.lemma_orbit_ids(dart2.0 as int, iseq, q2);
                lemma_same_ids_same_len(q1, o1@);
                lemma_same_ids_same_len(q2, o2@);
                assert forall|x: int| 0 <= x < o.len() implies (Self::in_prefix(o1@, x, m1) <==> o.orbit_set(dart1.0 as int, iseq).contains(x))
                    && (Self::in_prefix(o2@, x, m2) <==> o.orbit_set(dart2.0 as int, iseq).contains(x)) by {
                    if o.orbit_set(dart1.0 as int, iseq).contains(x) {
                        assert(ids(o1@).contains(x));
                        let i = choose|i: int| 0 <= i < o1@.len() && (#[trigger] o1@[i]).0 == x;
                        assert(Self::in_prefix(o1@, x, m1));
                    }
                    if Self::in_prefix(o1@, x, m1) {
                        let i = choose|i: int| 0 <= i < m1 && i < o1@.len() && (#[trigger] o1@[i]).0 == x;
                        assert(ids(o1@).contains(x));
                    }
                    if o.orbit_set(dart2.0 as int, iseq).contains(x) {
                        assert(ids(o2@).contains(x));
                        let i = choose|i: int| 0 <= i < o2@.len() && (#[trigger] o2@[i]).0 == x;
                        assert(Self::in_prefix(o2@, x, m2));
                    }
                    if Self::in_prefix(o2@, x, m2) {
                        let i = choose|i: int| 0 <= i < m2 && i < o2@.len() && (#[trigger] o2@[i]).0 == x;
                        assert(ids(o2@).contains(x));
                    }
                }
            }
            assert forall|x: int| 0 <= x < o.len() implies #[trigger] self.alpha(x, alpha as int) == (
                if Self::in_prefix(o1@, x, m2) || Self::in_prefix(o2@, x, m1) { x } else { o.alpha(x, alpha as int) }) by {
                if Self::in_prefix(o1@, x, m2) {
                    let i = choose|i: int| 0 <= i < m2 && i < o1@.len() && (#[trigger] o1@[i]).0 == x;
                    assert(Self::in_prefix(o1@, x, k as int));
                }
                if Self::in_prefix(o2@, x, m1) {
                    let i = choose|i: int| 0 <= i < m1 && i < o2@.len() && (#[trigger] o2@[i]).0 == x;
                    assert(Self::in_prefix(o2@, x, k as int));
                }
                if Self::in_prefix(o1@, x, k as int) {
                    let i = choose|i: int| 0 <= i < k && i < o1@.len() && (#[trigger] o1@[i]).0 == x;
                    assert(Self::in_prefix(o1@, x, m2));
                }
                if Self::in_prefix(o2@, x, k as int) {
                    let i = choose|i: int| 0 <= i < k && i < o2@.len() && (#[trigger] o2@[i]).0 == x;
                    assert(Self::in_prefix(o2@, x, m1));
                }
            }
        }
    }
}

/// Two listings without repetition of the same darts have the same length.
pub proof fn lemma_same_ids_same_len(a: Seq<DartIndex>, b: Seq<DartIndex>)
    requires
        a.no_duplicates(),
        b.no_duplicates(),
        ids(a) == ids(b),
    ensures
        a.len() == b.len(),
{
    let ia = a.map_values(|d: DartIndex| d.0 as int);
    let ib = b.map_values(|d: DartIndex| d.0 as int);
    assert(ia.no_duplicates()) by {
        assert forall|i: int, j: int| 0 <= i < ia.len() && 0 <= j < ia.len() && i != j implies ia[i] != ia[j] by {
            assert(a[i] != a[j]);
        }
    }
    assert(ib.no_duplicates()) by {
        assert forall|i: int, j: int| 0 <= i < ib.len() && 0 <= j < ib.len() && i != j implies ib[i] != ib[j] by {
            assert(b[i] != b[j]);
        }
    }
    assert(ia.to_set() =~= ids(a)) by {
        assert forall|x: int| ia.to_set().contains(x) <==> ids(a).contains(x) by {
            if ids(a).contains(x) {
                let i = choose|i: int| 0 <= i < a.len() && (#[trigger] a[i]).0 == x;
                assert(ia[i] == x);
            }
        }
    }
    assert(ib.to_set() =~= ids(b)) by {
        assert forall|x: int| ib.to_set().contains(x) <==> ids(b).contains(x) by {
            if ids(b).contains(x) {
                let i = choose|i: int| 0 <= i < b.len() && (#[trigger] b[i]).0 == x;
                assert(ib[i] == x);
            }
        }
    }
    ia.unique_seq_to_set();
    ib.unique_seq_to_set();
}

impl<const N: usize, const NA: usize, const NL: usize> NGMap<N, NA, NL> {
    /// Linking the first `m` pairs leaves alone the darts outside them.
    pub proof fn lemma_sew_value_outside(&self, p1: Seq<DartIndex>, p2: Seq<DartIndex>, alpha: int, x: int, m: int)
        requires
            0 <= m <= p1.len(),
            m <= p2.len(),
            !Self::in_prefix(p1, x, m),
            !Self::in_prefix(p2, x, m),
        ensures
            self.sew_value(p1, p2, alpha, x, m) == self.alpha(x, alpha),
        decreases m,
    {
        if m > 0 {
            if p2[m - 1].0 == x {
                assert(Self::in_prefix(p2, x, m));
            }
            if p1[m - 1].0 == x {
                assert(Self::in_prefix(p1, x, m));
            }
            if Self::in_prefix(p1, x, m - 1) {
                let i = choose|i: int| 0 <= i < m - 1 && i < p1.len() && (#[trigger] p1[i]).0 == x;
                assert(Self::in_prefix(p1, x, m));
            }
            if Self::in_prefix(p2, x, m - 1) {
                let i = choose|i: int| 0 <= i < m - 1 && i < p2.len() && (#[trigger] p2[i]).0 == x;
                assert(Self::in_prefix(p2, x, m));
            }
            self.lemma_sew_value_outside(p1, p2, alpha, x, m - 1);
        }
    }

    /// Links beyond a prefix of `long` that lead nowhere (to the dart itself
    /// or to dart 0) do not change orbits: the orbits under `long` are
    /// those under its first `m` links.
    pub proof fn lemma_orbits_prefix_links(&self, long: Seq<usize>, m: int)
        requires
            self.wf(),
            0 <= m <= long.len(),
            forall|j: int| 0 <= j < long.len() ==> #[trigger] long[j] < N,
            forall|x: int, j: int| 0 <= x < self.len() && m <= j < long.len() ==>
                #[trigger] self.alpha(x, long[j] as int) == x || self.alpha(x, long[j] as int) == 0,
        ensures
            forall|d: int| 0 <= d < self.len() ==> #[trigger] self.orbit_set(d, long) == self.orbit_set(d, long.take(m)),
    {
        let short = long.take(m);
        assert forall|d: int| 0 <= d < self.len() implies #[trigger] self.orbit_set(d, long) == self.orbit_set(d, short) by {
            assert forall|x: int| self.orbit_set(d, long).contains(x) implies self.orbit_set(d, short).contains(x) by {
                assert forall|s: Set<int>| #[trigger] self.closed_under(s, short) && s.contains(d) implies s.contains(x) by {
                    let s2 = Set::new(|y: int| s.contains(y) && 0 <= y < self.len());
                    assert forall|y: int, j: int| s2.contains(y) && 0 <= j < long.len() implies {
                        let z = #[trigger] self.alpha(y, long[j] as int);
                        z == y || z == 0 || s2.contains(z)
                    } by {
                        assert(self.alpha(y, long[j] as int) < self.len());
                        if j < m {
                            assert(short[j] == long[j]);
                            assert(self.alpha(y, short[j] as int) == self.alpha(y, long[j] as int));
                        }
                    }
                    assert(self.closed_under(s2, long));
                    assert(s2.contains(d));
                }
            }
            assert forall|x: int| self.orbit_set(d, short).contains(x) implies self.orbit_set(d, long).contains(x) by {
                assert forall|s: Set<int>| #[trigger] self.closed_under(s, long) && s.contains(d) implies s.contains(x) by {
                    assert forall|y: int, j: int| s.contains(y) && 0 <= j < short.len() implies {
                        let z = #[trigger] self.alpha(y, short[j] as int);
                        z == y || z == 0 || s.contains(z)
                    } by {
                        assert(short[j] == long[j]);
                        assert(self.alpha(y, long[j] as int) == self.alpha(y, short[j] as int));
                    }
                    assert(self.closed_under(s, short));
                }
            }
            assert(self.orbit_set(d, long) =~= self.orbit_set(d, short));
        }
    }

    /// Unsewing undoes sewing. Let `s` come from `o` by a successful
    /// `sew(d1, d2, alpha)` and `f` from `s` by `unsew(d1, d2, alpha)`, as
    /// their contracts state. If every dart of the two orbits under the
    /// sewing links was alpha(`alpha`)-free in `o`, and no link above the
    /// dimension leads to another dart (unsewing walks the links up to `N`,
    /// sewing those below the dimension), then `f` has every alpha link of
    /// `o`.
    pub proof fn lemma_unsew_undoes_sew(o: &Self, s: &Self, f: &Self, d1: int, d2: int, alpha: int)
        requires
            o.wf(),
            0 <= d1 < o.len(),
            0 <= d2 < o.len(),
            0 <= alpha < o.ndims,
            forall|x: int| o.orbit_set(d1, seq_sewing(alpha, o.ndims as int)).contains(x)
                || o.orbit_set(d2, seq_sewing(alpha, o.ndims as int)).contains(x) ==> #[trigger] o.free(x, alpha),
            s.len() == o.len(),
            s.ndims == o.ndims,
            forall|d: int, k: int| 0 <= d < o.len() && 0 <= k < N && k != alpha ==> #[trigger] s.alpha(d, k) == o.alpha(d, k),
            exists|p1: Seq<DartIndex>, p2: Seq<DartIndex>| {
                &&& o.is_orbit(d1, seq_sewing(alpha, o.ndims as int), p1)
                &&& o.is_orbit(d2, seq_sewing(alpha, o.ndims as int), p2)
                &&& p1.len() == p2.len()
                &&& forall|x: int| 0 <= x < o.len() ==> #[trigger] s.alpha(x, alpha)
                    == o.sew_value(p1, p2, alpha, x, p1.len() as int)
            },
            f.only_alpha_changed(s, alpha),
            exists|q1: Seq<DartIndex>, q2: Seq<DartIndex>| {
                &&& #[trigger] s.is_orbit(d1, seq_sewing(alpha, N as int), q1)
                &&& #[trigger] s.is_orbit(d2, seq_sewing(alpha, N as int), q2)
                &&& forall|x: int| 0 <= x < s.len() ==> #[trigger] f.alpha(x, alpha) == (
                    if Self::in_prefix(q1, x, q2.len() as int) || Self::in_prefix(q2, x, q1.len() as int) { x } else { s.alpha(x, alpha) })
            },
            s.wf(),
            forall|x: int, k: int| 0 <= x < o.len() && o.ndims <= k < N ==> #[trigger] o.alpha(x, k) == x || o.alpha(x, k) == 0,
        ensures
            forall|x: int, k: int| 0 <= x < o.len() && 0 <= k < N ==> #[trigger] f.alpha(x, k) == o.alpha(x, k),
    {
        let iseq = seq_sewing(alpha, o.ndims as int);
        crate::gmap::shapes::lemma_seq_sewing_values(alpha, o.ndims as int);
        let (p1, p2) = choose|p1: Seq<DartIndex>, p2: Seq<DartIndex>| {
            &&& o.is_orbit(d1, iseq, p1)
            &&& o.is_orbit(d2, iseq, p2)
            &&& p1.len() == p2.len()
            &&& forall|x: int| 0 <= x < o.len() ==> #[trigger] s.alpha(x, alpha)
                == o.sew_value(p1, p2, alpha, x, p1.len() as int)
        };
        let (q1, q2) = choose|q1: Seq<DartIndex>, q2: Seq<DartIndex>| {
            &&& #[trigger] s.is_orbit(d1, seq_sewing(alpha, N as int), q1)
            &&& #[trigger] s.is_orbit(d2, seq_sewing(alpha, N as int), q2)
            &&& forall|x: int| 0 <= x < s.len() ==> #[trigger] f.alpha(x, alpha) == (
                if Self::in_prefix(q1, x, q2.len() as int) || Self::in_prefix(q2, x, q1.len() as int) { x } else { s.alpha(x, alpha) })
        };
        assert forall|d: int, j: int| 0 <= d < o.len() && 0 <= j < iseq.len() implies #[trigger] o.alpha(d, iseq[j] as int) == s.alpha(d, iseq[j] as int) by {
            assert(iseq[j] != alpha);
        }
        o.lemma_same_alphas_same_orbits(s, iseq);
        let long = seq_sewing(alpha, N as int);
        let m = iseq.len() as int;
        crate::gmap::shapes::lemma_seq_sewing_values(alpha, N as int);
        assert(iseq =~= long.take(m));
        assert forall|x: int, j: int| 0 <= x < s.len() && m <= j < long.len() implies
            #[trigger] s.alpha(x, long[j] as int) == x || s.alpha(x, long[j] as int) == 0 by {
            assert(long[j] >= o.ndims);
            assert(long[j] != alpha);
            assert(s.alpha(x, long[j] as int) == o.alpha(x, long[j] as int));
        }
        s.lemma_orbits_prefix_links(long, m);
        o.lemma_orbit_ids(d1, iseq, p1);
        o.lemma_orbit_ids(d2, iseq, p2);
        s.lemma_orbit_ids(d1, long, q1);
        s.lemma_orbit_ids(d2, long, q2);
        lemma_same_ids_same_len(p1, q1);
        lemma_same_ids_same_len(p2, q2);
        let m = p1.len() as int;
        assert(s.orbit_set(d1, long) == o.orbit_set(d1, iseq));
        assert(s.orbit_set(d2, long) == o.orbit_set(d2, iseq));
        assert forall|x: int, k: int| 0 <= x < o.len() && 0 <= k < N implies #[trigger] f.alpha(x, k) == o.alpha(x, k) by {
            if k != alpha {
                assert(f.alpha(x, k) == s.alpha(x, k));
            } else {
                if Self::in_prefix(q1, x, m) || Self::in_prefix(q2, x, m) {
                    if Self::in_prefix(q1, x, m) {
                        let i = choose|i: int| 0 <= i < m && i < q1.len() && (#[trigger] q1[i]).0 == x;
                        assert(ids(q1).contains(x));
                        assert(o.orbit_set(d1, iseq).contains(x));
                    } else {
                        let i = choose|i: int| 0 <= i < m && i < q2.len() && (#[trigger] q2[i]).0 == x;
                        assert(ids(q2).contains(x));
                        assert(o.orbit_set(d2, iseq).contains(x));
                    }
                    assert(o.free(x, alpha));
                } else {
                    if Self::in_prefix(p1, x, m) {
                        let i = choose|i: int| 0 <= i < m && i < p1.len() && (#[trigger] p1[i]).0 == x;
                        assert(ids(p1).contains(x));
                        assert(ids(q1).contains(x));
                        let i2 = choose|i2: int| 0 <= i2 < q1.len() && (#[trigger] q1[i2]).0 == x;
                        assert(Self::in_prefix(q1, x, m));
                    }
                    if Self::in_prefix(p2, x, m) {
                        let i = choose|i: int| 0 <= i < m && i < p2.len() && (#[trigger] p2[i]).0 == x;
                        assert(ids(p2).contains(x));
                        assert(ids(q2).contains(x));
                        let i2 = choose|i2: int| 0 <= i2 < q2.len() && (#[trigger] q2[i2]).0 == x;
                        assert(Self::in_prefix(q2, x, m));
                    }
                    o.lemma_sew_value_outside(p1, p2, alpha, x, m);
                }
            }
        }
    }
}

impl<const N: usize, const NA: usize, const NL: usize> NGMap<N, NA, NL> {
    /// Linking two distinct alpha(`alpha`)-free darts in use to each other
    /// along alpha(`alpha`), and changing nothing else, keeps the alpha
    /// links involutions.
    pub proof fn lemma_link_pair_keeps_involutive(o: &Self, f: &Self, d1: int, d2: int, alpha: int)
        requires
            o.wf(),
            o.involutive(),
            0 <= d1 < o.len(),
            0 <= d2 < o.len(),
            d1 != d2,
            o.is_init(d1),
            o.is_init(d2),
            0 <= alpha < o.ndims,
            o.free(d1, alpha),
            o.free(d2, alpha),
            f.len() == o.len(),
            f.ndims == o.ndims,
            forall|x: int| 0 <= x < o.len() ==> (#[trigger] f.darts@[x]).init == o.darts@[x].init,
            forall|x: int, k: int| 0 <= x < o.len() && 0 <= k < N && k != alpha ==> #[trigger] f.alpha(x, k) == o.alpha(x, k),
            forall|x: int| 0 <= x < o.len() ==> #[trigger] f.alpha(x, alpha) == (
                if x == d2 { d1 } else if x == d1 { d2 } else { o.alpha(x, alpha) }),
        ensures
            f.involutive(),
    {
        assert forall|d: int, k: int| 0 <= d < f.len() && f.is_init(d) && 0 <= k < f.ndims implies {
            let e = #[trigger] f.alpha(d, k);
            &&& 0 <= e < f.len()
            &&& f.is_init(e)
            &&& f.alpha(e, k) == d
        } by {
            assert(f.darts@[d].init == o.darts@[d].init);
            let e0 = o.alpha(d, k);
            assert(o.is_init(e0) && o.alpha(e0, k) == d && 0 <= e0 < o.len());
            assert(f.darts@[e0].init == o.darts@[e0].init);
            if k == alpha {
                if d != d1 && d != d2 {
                    if e0 == d1 {
                        assert(o.alpha(d1, alpha) == d1);
                    }
                    if e0 == d2 {
                        assert(o.alpha(d2, alpha) == d2);
                    }
                }
            }
        }
    }
}

impl<const N: usize, const NA: usize, const NL: usize> NGMap<N, NA, NL> {
    /// With involutive links, the darts of the orbit of a dart in use are in
    /// use.
    pub proof fn lemma_orbit_in_use(&self, d: int, iseq: Seq<usize>, p: Seq<DartIndex>)
        requires
            self.wf(),
            self.involutive(),
            0 <= d < self.len(),
            self.is_init(d),
            forall|j: int| 0 <= j < iseq.len() ==> #[trigger] iseq[j] < self.ndims,
            self.is_orbit(d, iseq, p),
        ensures
            forall|i: int| 0 <= i < p.len() ==> #[trigger] self.is_init(p[i].0 as int),
    {
        let used = Set::new(|x: int| 0 <= x < self.len() && self.is_init(x));
        assert forall|x: int, j: int| used.contains(x) && 0 <= j < iseq.len() implies {
            let y = #[trigger] self.alpha(x, iseq[j] as int);
            y == x || y == 0 || used.contains(y)
        } by {
            let y = self.alpha(x, iseq[j] as int);
            assert(0 <= y < self.len() && self.is_init(y));
        }
        assert(self.closed_under(used, iseq));
        assert forall|i: int| 0 <= i < p.len() implies #[trigger] self.is_init(p[i].0 as int) by {
            assert(ids(p).contains(p[i].0 as int));
        }
    }
}

impl<const N: usize, const NA: usize, const NL: usize> NGMap<N, NA, NL> {
    /// Linking the first `m` pairs of two disjoint listings without
    /// repetition links the `i`-th darts to each other.
    pub proof fn lemma_sew_value_at(&self, p1: Seq<DartIndex>, p2: Seq<DartIndex>, alpha: int, m: int)
        requires
            p1.no_duplicates(),
            p2.no_duplicates(),
            ids(p1).disjoint(ids(p2)),
            0 <= m <= p1.len(),
            m <= p2.len(),
        ensures
            forall|i: int| 0 <= i < m ==> {
                &&& self.sew_value(p1, p2, alpha, (#[trigger] p1[i]).0 as int, m) == p2[i].0
                &&& self.sew_value(p1, p2, alpha, p2[i].0 as int, m) == p1[i].0
            },
        decreases m,
    {
        if m > 0 {
            self.lemma_sew_value_at(p1, p2, alpha, m - 1);
            assert forall|i: int| 0 <= i < m implies {
                &&& self.sew_value(p1, p2, alpha, (#[trigger] p1[i]).0 as int, m) == p2[i].0
                &&& self.sew_value(p1, p2, alpha, p2[i].0 as int, m) == p1[i].0
            } by {
                assert(ids(p1).contains(p1[i].0 as int));
                assert(ids(p2).contains(p2[i].0 as int));
                assert(ids(p1).contains(p1[m - 1].0 as int));
                assert(ids(p2).contains(p2[m - 1].0 as int));
                if i < m - 1 {
                    assert(p1[i] != p1[m - 1]);
                    assert(p2[i] != p2[m - 1]);
                }
            }
        }
    }

    /// Sewing keeps the alpha links involutions when the two orbits are
    /// disjoint and all their darts were free along the sewing link: each
    /// dart of one orbit is linked to its partner in the other, and the
    /// other links stay as they were.
    pub proof fn lemma_sew_keeps_involutive(o: &Self, f: &Self, d1: int, d2: int, alpha: int, p1: Seq<DartIndex>, p2: Seq<DartIndex>)
        requires
            o.wf(),
            o.involutive(),
            0 <= d1 < o.len(),
            0 <= d2 < o.len(),
            o.is_init(d1),
            o.is_init(d2),
            0 <= alpha < o.ndims,
            o.is_orbit(d1, seq_sewing(alpha, o.ndims as int), p1),
            o.is_orbit(d2, seq_sewing(alpha, o.ndims as int), p2),
            p1.len() == p2.len(),
            ids(p1).disjoint(ids(p2)),
            forall|i: int| 0 <= i < p1.len() ==> o.free((#[trigger] p1[i]).0 as int, alpha),
            forall|i: int| 0 <= i < p2.len() ==> o.free((#[trigger] p2[i]).0 as int, alpha),
            f.len() == o.len(),
            f.ndims == o.ndims,
            forall|x: int| 0 <= x < o.len() ==> (#[trigger] f.darts@[x]).init == o.darts@[x].init,
            forall|x: int, k: int| 0 <= x < o.len() && 0 <= k < N && k != alpha ==> #[trigger] f.alpha(x, k) == o.alpha(x, k),
            forall|x: int| 0 <= x < o.len() ==> #[trigger] f.alpha(x, alpha) == o.sew_value(p1, p2, alpha, x, p1.len() as int),
        ensures
            f.involutive(),
    {
        let iseq = seq_sewing(alpha, o.ndims as int);
        crate::gmap::shapes::lemma_seq_sewing_values(alpha, o.ndims as int);
        o.lemma_orbit_in_use(d1, iseq, p1);
        o.lemma_orbit_in_use(d2, iseq, p2);
        let m = p1.len() as int;
        o.lemma_sew_value_at(p1, p2, alpha, m);
        assert forall|d: int, k: int| 0 <= d < f.len() && f.is_init(d) && 0 <= k < f.ndims implies {
            let e = #[trigger] f.alpha(d, k);
            &&& 0 <= e < f.len()
            &&& f.is_init(e)
            &&& f.alpha(e, k) == d
        } by {
            assert(f.darts@[d].init == o.darts@[d].init);
            if k != alpha {
                let e0 = o.alpha(d, k);
                assert(o.is_init(e0) && o.alpha(e0, k) == d && 0 <= e0 < o.len());
                assert(f.darts@[e0].init == o.darts@[e0].init);
            } else if ids(p1).contains(d) {
                let i = choose|i: int| 0 <= i < p1.len() && (#[trigger] p1[i]).0 == d;
                assert(f.alpha(d, alpha) == p2[i].0);
                assert(f.alpha(p2[i].0 as int, alpha) == p1[i].0);
                assert(f.darts@[p2[i].0 as int].init == o.darts@[p2[i].0 as int].init);
            } else if ids(p2).contains(d) {
                let i = choose|i: int| 0 <= i < p2.len() && (#[trigger] p2[i]).0 == d;
                assert(f.alpha(d, alpha) == p1[i].0);
                assert(f.alpha(p1[i].0 as int, alpha) == p2[i].0);
                assert(f.darts@[p1[i].0 as int].init == o.darts@[p1[i].0 as int].init);
            } else {
                o.lemma_sew_value_outside(p1, p2, alpha, d, m);
                let e0 = o.alpha(d, alpha);
                assert(o.is_init(e0) && o.alpha(e0, alpha) == d && 0 <= e0 < o.len());
                assert(f.darts@[e0].init == o.darts@[e0].init);
                if Self::in_prefix(p1, e0, m) {
                    let i = choose|i: int| 0 <= i < m && i < p1.len() && (#[trigger] p1[i]).0 == e0;
                    assert(o.free(e0, alpha));
                }
                if Self::in_prefix(p2, e0, m) {
                    let i = choose|i: int| 0 <= i < m && i < p2.len() && (#[trigger] p2[i]).0 == e0;
                    assert(o.free(e0, alpha));
                }
                if Self::in_prefix(p1, d, m) {
                    let i = choose|i: int| 0 <= i < m && i < p1.len() && (#[trigger] p1[i]).0 == d;
                    assert(ids(p1).contains(d));
                }
                if Self::in_prefix(p2, d, m) {
                    let i = choose|i: int| 0 <= i < m && i < p2.len() && (#[trigger] p2[i]).0 == d;
                    assert(ids(p2).contains(d));
                }
                o.lemma_sew_value_outside(p1, p2, alpha, e0, m);
            }
        }
    }
}

} // verus!
