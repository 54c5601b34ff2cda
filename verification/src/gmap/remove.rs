//! Removal and contraction of cells. Removing an i-cell deletes its darts
//! and joins the two (i+1)-cells around it; contracting an i-cell deletes
//! its darts and joins the two (i-1)-cells at its ends. Around each removed
//! part, the outside darts are relinked along alpha(i) to the first outside
//! dart reached by walking through the cell.

use vstd::prelude::*;
use crate::index::{DartIndex, MarkIndex, AttributeIndex};
use crate::dart::vec_repeat;
use crate::orbits::{seq_without, get_seq};
use crate::iterators::ids;
use crate::index_allocator::{AllocationNode, free_spec};
use super::{NGMap, AttributeAction};

verus! {


/// The runs left after freeing the darts of `s` one after the other.
pub open spec fn freed_in_turn(count: usize, nodes: Seq<AllocationNode>, s: Seq<DartIndex>) -> Seq<AllocationNode>
    decreases s.len(),
{
    if s.len() == 0 {
        nodes
    } else {
        free_spec(count, freed_in_turn(count, nodes, s.drop_last()), s.last().0).1
    }
}

impl<const N: usize, const NA: usize, const NL: usize> NGMap<N, NA, NL> {
    /// The attribute removals for all the darts of `s`, in turn.
    pub open spec fn removals_of(&self, s: Seq<DartIndex>) -> Seq<AttributeAction>
        decreases s.len(),
    {
        if s.len() == 0 {
            Seq::empty()
        } else {
            self.removals_of(s.drop_last()) + self.removals(s.last().0 as int, N as int)
        }
    }

    /// Removal actions depend only on the dart's attributes and the
    /// attribute books.
    proof fn lemma_removals_same(&self, other: &Self, d: int, k: int)
        requires
            0 <= d < self.len(),
            d < other.len(),
            self.darts@[d].attributes@ == other.darts@[d].attributes@,
            self.attribute_container_indices@ == other.attribute_container_indices@,
            self.attribute_index_allocators@ == other.attribute_index_allocators@,
        ensures
            self.removals(d, k) == other.removals(d, k),
        decreases k,
    {
        if k > 0 {
            self.lemma_removals_same(other, d, k - 1);
        }
    }

    /// Unlinks every dart of `listing` from everything (each alpha link
    /// made free) and removes it.
    fn detach_all(&mut self, listing: &Vec<DartIndex>)
        requires
            old(self).wf(),
            listing@.no_duplicates(),
            forall|i: int| 0 <= i < listing@.len() ==> 0 < (#[trigger] listing@[i]).0 < old(self).len(),
        ensures
            final(self).wf(),
            final(self).len() == old(self).len(),
            final(self).ndims == old(self).ndims,
            forall|d: int| 0 <= d < old(self).len() && !ids(listing@).contains(d) ==> #[trigger] final(self).dart_unchanged(old(self), d),
            forall|d: int| 0 <= d < old(self).len() && ids(listing@).contains(d) ==> {
                &&& !(#[trigger] final(self).darts@[d]).init
                &&& final(self).darts@[d].attributes@ == old(self).darts@[d].attributes@
                &&& final(self).darts@[d].links@ == old(self).darts@[d].links@
            },
            forall|d: int, k: int| 0 <= d < old(self).len() && ids(listing@).contains(d) && 0 <= k < N ==> #[trigger] final(self).alpha(d, k) == d,
            final(self).dart_index_allocator.count == old(self).dart_index_allocator.count,
            final(self).dart_index_allocator.nodes@ == freed_in_turn(old(self).dart_index_allocator.count, old(self).dart_index_allocator.nodes@, listing@),
            final(self).marks@ == old(self).marks@,
            final(self).attribute_container_indices@ == old(self).attribute_container_indices@,
            final(self).attribute_index_allocators@ == old(self).attribute_index_allocators@,
            final(self).attribute_actions@ == old(self).attribute_actions@ + old(self).removals_of(listing@),
    {
        let ghost o = *old(self);
        let mut i: usize = 0;
        proof {
            assert(listing@.subrange(0, 0) =~= Seq::<DartIndex>::empty());
            assert(self.attribute_actions@ =~= o.attribute_actions@ + o.removals_of(listing@.subrange(0, 0)));
        }
        while i < listing.len()
            invariant
                self.wf(),
                o.wf(),
                i <= listing@.len(),
                listing@.no_duplicates(),
                forall|k: int| 0 <= k < listing@.len() ==> 0 < (#[trigger] listing@[k]).0 < o.len(),
                self.len() == o.len(),
                self.ndims == o.ndims,
                forall|d: int| 0 <= d < o.len() && !ids(listing@.subrange(0, i as int)).contains(d) ==> #[trigger] self.dart_unchanged(&o, d),
                forall|d: int| 0 <= d < o.len() && ids(listing@.subrange(0, i as int)).contains(d) ==> {
                    &&& !(#[trigger] self.darts@[d]).init
                    &&& self.darts@[d].attributes@ == o.darts@[d].attributes@
                    &&& self.darts@[d].links@ == o.darts@[d].links@
                },
                forall|d: int, k: int| 0 <= d < o.len() && ids(listing@.subrange(0, i as int)).contains(d) && 0 <= k < N ==> #[trigger] self.alpha(d, k) == d,
                self.dart_index_allocator.count == o.dart_index_allocator.count,
                self.dart_index_allocator.nodes@ == freed_in_turn(o.dart_index_allocator.count, o.dart_index_allocator.nodes@, listing@.subrange(0, i as int)),
                self.marks@ == o.marks@,
                self.attribute_container_indices@ == o.attribute_container_indices@,
                self.attribute_index_allocators@ == o.attribute_index_allocators@,
                self.attribute_actions@ == o.attribute_actions@ + o.removals_of(listing@.subrange(0, i as int)),
            decreases listing@.len() - i,
        {
            let di = listing[i];
            let ghost pre = *self;
            let ghost done = ids(listing@.subrange(0, i as int));
            proof {
                if done.contains(di.0 as int) {
                    let k = choose|k: int| 0 <= k < i && #[trigger] listing@.subrange(0, i as int)[k].0 == di.0;
                    assert(listing@[k] == listing@[i as int]);
                }
            }
            let mut k: usize = 0;
            while k < N
                invariant
                    self.wf(),
                    pre.wf(),
                    0 < di.0 < pre.len(),
                    k <= N,
                    self.same_books(&pre),
                    self.len() == pre.len(),
                    forall|e: int| 0 <= e < pre.len() ==> #[trigger] self.darts@[e].init == pre.darts@[e].init
                        && self.darts@[e].attributes@ == pre.darts@[e].attributes@
                        && self.darts@[e].links@ == pre.darts@[e].links@,
                    forall|e: int, kk: int| 0 <= e < pre.len() && 0 <= kk < N ==> #[trigger] self.alpha(e, kk) == (
                        if e == di.0 && kk < k { e } else { pre.alpha(e, kk) }),
                decreases N - k,
            {
                let ghost before = *self;
                self.set_dart_alpha(di.0, k, di);
                proof {
                    assert forall|e: int| 0 <= e < pre.len() implies #[trigger] self.darts@[e].init == pre.darts@[e].init
                        && self.darts@[e].attributes@ == pre.darts@[e].attributes@
                        && self.darts@[e].links@ == pre.darts@[e].links@ by {
                        assert(before.darts@[e].init == pre.darts@[e].init);
                        assert(self.darts@[e].init == before.darts@[e].init);
                    }
                }
                k = k + 1;
            }
            let ghost mid = *self;
            proof {
                assert forall|kk: int| 0 <= kk < N implies #[trigger] mid.free(di.0 as int, kk) by {
                    assert(mid.alpha(di.0 as int, kk) == di.0);
                }
                assert forall|e: int| 0 <= e < pre.len() && e != di.0 implies #[trigger] mid.dart_unchanged(&pre, e) by {
                    assert(mid.darts@[e].alphas@ =~= pre.darts@[e].alphas@) by {
                        assert(mid.darts@[e].wf() && pre.darts@[e].wf());
                        assert forall|kk: int| 0 <= kk < mid.darts@[e].alphas@.len() implies mid.darts@[e].alphas@[kk] == pre.darts@[e].alphas@[kk] by {
                            assert(mid.alpha(e, kk) == pre.alpha(e, kk));
                        }
                    }
                }
            }
            let removed = self.remove_isolated_dart(di);
            proof {
                assert(removed);
                let sub = listing@.subrange(0, i as int);
                let sub1 = listing@.subrange(0, i + 1);
                assert(sub1.drop_last() =~= sub);
                assert(sub1.last() == di);
                assert(pre.dart_unchanged(&o, di.0 as int));
                assert(mid.darts@[di.0 as int].init == pre.darts@[di.0 as int].init);
                assert(mid.darts@[di.0 as int].attributes@ == o.darts@[di.0 as int].attributes@);
                mid.lemma_removals_same(&o, di.0 as int, N as int);
                assert(self.attribute_actions@ =~= o.attribute_actions@ + o.removals_of(sub1));
                assert forall|d: int| #[trigger] ids(sub1).contains(d) <==> (ids(sub).contains(d) || d == di.0) by {
                    if ids(sub1).contains(d) {
                        let k = choose|k: int| 0 <= k < sub1.len() && #[trigger] sub1[k].0 == d;
                        if k < i {
                            assert(sub[k].0 == d);
                        }
                    }
                    if ids(sub).contains(d) {
                        let k = choose|k: int| 0 <= k < sub.len() && #[trigger] sub[k].0 == d;
                        assert(sub1[k].0 == d);
                    }
                    if d == di.0 {
                        assert(sub1[i as int].0 == d);
                    }
                }
                assert forall|d: int| 0 <= d < o.len() && ids(sub1).contains(d) implies {
                    &&& !(#[trigger] self.darts@[d]).init
                    &&& self.darts@[d].attributes@ == o.darts@[d].attributes@
                    &&& self.darts@[d].links@ == o.darts@[d].links@
                } by {
                    if d != di.0 {
                        assert(self.darts@[d] == mid.darts@[d]);
                        assert(mid.darts@[d].init == pre.darts@[d].init);
                        assert(ids(sub).contains(d));
                        assert(!pre.darts@[d].init);
                    } else {
                        assert(mid.darts@[d].init == pre.darts@[d].init);
                        assert(pre.dart_unchanged(&o, d));
                    }
                }
                assert forall|d: int, k: int| 0 <= d < o.len() && ids(sub1).contains(d) && 0 <= k < N implies #[trigger] self.alpha(d, k) == d by {
                    if d != di.0 {
                        assert(self.darts@[d] == mid.darts@[d]);
                        assert(ids(sub).contains(d));
                        assert(pre.alpha(d, k) == d);
                        assert(mid.alpha(d, k) == pre.alpha(d, k));
                    } else {
                        assert(mid.alpha(d, k) == d);
                    }
                }
                assert forall|d: int| 0 <= d < o.len() && !ids(sub1).contains(d) implies #[trigger] self.dart_unchanged(&o, d) by {
                    assert(self.darts@[d] == mid.darts@[d]);
                    assert(mid.dart_unchanged(&pre, d));
                    assert(pre.dart_unchanged(&o, d));
                }
            }
            i = i + 1;
        }
        proof {
            assert(listing@.subrange(0, listing@.len() as int) =~= listing@);
        }
    }
}

impl<const N: usize, const NA: usize, const NL: usize> NGMap<N, NA, NL> {
    /// One step through a cell: alpha(`j`) then alpha(`idim`).
    pub open spec fn hop(&self, d: int, idim: int, j: int) -> int {
        self.alpha(self.alpha(d, j), idim)
    }

    /// `n` steps through a cell from `d`.
    pub open spec fn hops(&self, d: int, idim: int, j: int, n: nat) -> int
        decreases n,
    {
        if n == 0 {
            d
        } else {
            self.hop(self.hops(d, idim, j, (n - 1) as nat), idim, j)
        }
    }

    /// After `n >= 1` steps from `d` the walk first leaves `cell`.
    pub open spec fn exits_at(&self, cell: Set<int>, d: int, idim: int, j: int, n: nat) -> bool {
        &&& n >= 1
        &&& !cell.contains(self.hops(d, idim, j, n))
        &&& forall|m: nat| 1 <= m < n ==> cell.contains(#[trigger] self.hops(d, idim, j, m))
    }

    /// The walk from `d` leaves `cell` after some steps.
    pub open spec fn walk_exits(&self, cell: Set<int>, d: int, idim: int, j: int) -> bool {
        exists|n: nat| self.exits_at(cell, d, idim, j, n)
    }

    /// The first dart outside `cell` that the walk from `d` reaches.
    pub open spec fn walk_end(&self, cell: Set<int>, d: int, idim: int, j: int) -> int {
        self.hops(d, idim, j, choose|n: nat| self.exits_at(cell, d, idim, j, n))
    }

    /// `listing` holds a cell whose outside neighbours along alpha(`idim`)
    /// can be relinked by walking: no dart of it is linked to dart 0 along
    /// alpha(`idim`), and from every dart whose alpha(`idim`) neighbour lies
    /// outside, the walk leaves the cell.
    pub open spec fn relinkable(&self, cell: Set<int>, listing: Seq<DartIndex>, idim: int, j: int) -> bool {
        &&& forall|i: int| 0 <= i < listing.len() ==> self.alpha((#[trigger] listing[i]).0 as int, idim) != 0
        &&& forall|i: int| 0 <= i < listing.len() && !cell.contains(self.alpha((#[trigger] listing[i]).0 as int, idim))
            ==> self.walk_exits(cell, listing[i].0 as int, idim, j)
    }

    /// The position of the last dart of `listing` (before `m`) whose
    /// alpha(`idim`) neighbour is `y`, if any.
    pub open spec fn last_preimage(&self, listing: Seq<DartIndex>, idim: int, y: int, m: int) -> int
        decreases m,
    {
        if m <= 0 {
            -1
        } else if self.alpha(listing[m - 1].0 as int, idim) == y {
            m - 1
        } else {
            self.last_preimage(listing, idim, y, m - 1)
        }
    }

    /// The position of the last dart of `listing` (before `m`) whose
    /// alpha(`idim`) neighbour lies outside `cell`, if any.
    pub open spec fn last_exit(&self, cell: Set<int>, listing: Seq<DartIndex>, idim: int, m: int) -> int
        decreases m,
    {
        if m <= 0 {
            -1
        } else if !cell.contains(self.alpha(listing[m - 1].0 as int, idim)) {
            m - 1
        } else {
            self.last_exit(cell, listing, idim, m - 1)
        }
    }

    /// The outside neighbour of the dart at position `p` of `listing` and
    /// the dart it is relinked to.
    pub open spec fn exit_pair(&self, cell: Set<int>, listing: Seq<DartIndex>, idim: int, j: int, p: int) -> (DartIndex, DartIndex) {
        (DartIndex(self.alpha(listing[p].0 as int, idim) as usize), DartIndex(self.walk_end(cell, listing[p].0 as int, idim, j) as usize))
    }

    /// alpha(`idim`) of dart `y` after relinking around the darts of
    /// `listing` (the first `m` of them).
    pub open spec fn relinked(&self, cell: Set<int>, listing: Seq<DartIndex>, idim: int, j: int, y: int, m: int) -> int {
        let p = self.last_preimage(listing, idim, y, m);
        if cell.contains(y) || p < 0 {
            self.alpha(y, idim)
        } else {
            self.walk_end(cell, listing[p].0 as int, idim, j)
        }
    }


    /// The `idim`-cell of `d` can be cut out with walks along alpha(`j`):
    /// `d` is not dart 0, no dart of the cell is linked to dart 0 along
    /// alpha(`idim`), and every walk that starts at a dart of the cell with
    /// an outside alpha(`idim`) neighbour leaves the cell.
    pub open spec fn excisable(&self, d: int, idim: int, j: int) -> bool {
        let cell = self.cell(d, idim);
        &&& d != 0
        &&& forall|x: int| cell.contains(x) ==> #[trigger] self.alpha(x, idim) != 0
        &&& forall|x: int| cell.contains(x) && !cell.contains(#[trigger] self.alpha(x, idim)) ==> self.walk_exits(cell, x, idim, j)
    }

    /// This map is `old` with the darts of `listing` cut out: each outside
    /// alpha(`idim`) neighbour relinked to the end of its walk along
    /// alpha(`j`), the cut darts made free, no longer in use, handed back
    /// to the allocator, and their attributes removed.
    pub open spec fn excised(&self, old: &Self, listing: Seq<DartIndex>, idim: int, j: int) -> bool {
        let cell = ids(listing);
        &&& self.len() == old.len()
        &&& self.ndims == old.ndims
        &&& forall|d: int| 0 <= d < old.len() ==> {
            &&& (#[trigger] self.darts@[d]).init == (old.darts@[d].init && !cell.contains(d))
            &&& self.darts@[d].attributes@ == old.darts@[d].attributes@
            &&& self.darts@[d].links@ == old.darts@[d].links@
        }
        &&& forall|d: int, k: int| 0 <= d < old.len() && 0 <= k < N ==> #[trigger] self.alpha(d, k) == (
            if cell.contains(d) {
                d
            } else if k == idim {
                old.relinked(cell, listing, idim, j, d, listing.len() as int)
            } else {
                old.alpha(d, k)
            })
        &&& self.dart_index_allocator.count == old.dart_index_allocator.count
        &&& self.dart_index_allocator.nodes@ == freed_in_turn(old.dart_index_allocator.count, old.dart_index_allocator.nodes@, listing)
        &&& self.attribute_container_indices@ == old.attribute_container_indices@
        &&& self.attribute_index_allocators@ == old.attribute_index_allocators@
        &&& self.attribute_actions@ == old.attribute_actions@ + old.removals_of(listing)
    }


    /// The `idim`-cell of `d` may be removed: it is an (ndims - 1)-cell, or
    /// alpha(idim + 1) and alpha(idim + 2) commute around each of its darts.
    pub open spec fn removable(&self, d: int, idim: int) -> bool {
        ||| idim + 1 == self.ndims
        ||| forall|x: int| #[trigger] self.cell(d, idim).contains(x) ==>
                self.alpha(self.alpha(x, idim + 2), idim + 1) == self.alpha(self.alpha(x, idim + 1), idim + 2)
    }

    /// Removing the `idim`-cell of `d` runs to its end: the cell can be cut
    /// out along alpha(idim + 1), and some dart of it has an
    /// alpha(`idim`) neighbour outside it, whose two (idim + 1)-cells are
    /// then joined.
    pub open spec fn removal_defined(&self, d: int, idim: int) -> bool {
        &&& self.excisable(d, idim, idim + 1)
        &&& exists|x: int| self.cell(d, idim).contains(x) && !self.cell(d, idim).contains(#[trigger] self.alpha(x, idim))
    }

    /// This map is `old` after merging the attributes of the `idim`-cells
    /// of `d1` and `d2` into a fresh attribute index of the `idim`-cell of
    /// `d1`, if `idim` has a live attribute container; otherwise `old`.
    pub open spec fn attributes_merged(&self, old: &Self, d1: int, d2: int, idim: int) -> bool {
        &&& self.ndims == old.ndims
        &&& self.dart_index_allocator == old.dart_index_allocator
        &&& self.marks@ == old.marks@
        &&& self.attribute_container_indices@ == old.attribute_container_indices@
        &&& !old.has_container(idim) ==> {
            &&& self.darts@ == old.darts@
            &&& self.attribute_index_allocators@ == old.attribute_index_allocators@
            &&& self.attribute_actions@ == old.attribute_actions@
        }
        &&& old.has_container(idim) ==> {
            let s = old.slot_of(idim).unwrap() as int;
            let new = AttributeIndex(old.slot_count(s) as usize);
            &&& self.slot_advanced(old, s)
            &&& self.attribute_actions@ == old.attribute_actions@.push(AttributeAction::Merge {
                slot: s as usize,
                old0: old.attr_index(d1, idim),
                old1: old.attr_index(d2, idim),
                new: new,
            })
            &&& self.only_slot_changed(old, s)
            &&& forall|d: int| 0 <= d < old.len() ==> #[trigger] self.attr(d, s) == (
                if old.cell(d1, idim).contains(d) { new } else { old.attr(d, s) })
        }
    }

    /// `true` if the `idim`-cell of `dart` can be removed (see `removable`).
    pub fn is_removable(&self, dart: &DartIndex, idim: usize) -> (r: bool)
        requires
            self.wf(),
            dart.0 < self.len(),
            idim < self.ndims,
            idim + 1 == self.ndims || idim + 2 < N,
        ensures
            r == self.removable(dart.0 as int, idim as int),
    {
        let n = self.ndims;
        if idim == n - 1 {
            return true;
        }
        let it = self.iter_darts_in_cell(*dart, idim);
        let darts = &it.items;
        let ghost cell = self.cell(dart.0 as int, idim as int);
        proof {
            self.lemma_orbit_ids(dart.0 as int, seq_without(idim as int, N as int), darts@);
        }
        let mut i: usize = 0;
        while i < darts.len()
            invariant
                self.wf(),
                idim + 2 < N,
                idim + 1 < self.ndims,
                ids(darts@) == cell,
                cell == self.cell(dart.0 as int, idim as int),
                forall|k: int| 0 <= k < darts@.len() ==> (#[trigger] darts@[k]).0 < self.len(),
                i <= darts@.len(),
                forall|k: int| 0 <= k < i ==> {
                    let x = (#[trigger] darts@[k]).0 as int;
                    self.alpha(self.alpha(x, idim + 2), idim + 1) == self.alpha(self.alpha(x, idim + 1), idim + 2)
                },
            decreases darts@.len() - i,
        {
            let di = darts[i];
            let a2 = self.get_alpha(&di, idim + 2);
            let d1 = self.get_alpha(&a2, idim + 1);
            let a1 = self.get_alpha(&di, idim + 1);
            let d2 = self.get_alpha(&a1, idim + 2);
            if d1 != d2 {
                proof {
                    assert(cell.contains(di.0 as int)) by {
                        assert(darts@[i as int].0 == di.0);
                    }
                    assert(self.cell(dart.0 as int, idim as int).contains(di.0 as int));
                    assert(self.alpha(self.alpha(di.0 as int, idim + 2), idim + 1) != self.alpha(self.alpha(di.0 as int, idim + 1), idim + 2));
                }
                return false;
            }
            i = i + 1;
        }
        proof {
            assert forall|x: int| #[trigger] cell.contains(x) implies
                self.alpha(self.alpha(x, idim + 2), idim + 1) == self.alpha(self.alpha(x, idim + 1), idim + 2) by {
                let k = choose|k: int| 0 <= k < darts@.len() && #[trigger] darts@[k].0 == x;
            }
        }
        true
    }

    /// Removes the `idim`-cell of `dart` if it is removable, joining the two
    /// (idim + 1)-cells around it: each outside alpha(`idim`) neighbour of
    /// the cell is relinked to the first outside dart reached by walking
    /// through the cell along alpha(idim + 1) and alpha(`idim`), the darts
    /// of the cell are removed, and the attributes of the two
    /// (idim + 1)-cells at the last relinked pair are merged. The mark used
    /// to tell the cell's darts apart is released again, so the marks are
    /// left as they were. Returns `true` if the cell was removed.
    pub fn remove_cell(&mut self, dart: &DartIndex, idim: usize) -> (r: bool)
        requires
            old(self).wf(),
            dart.0 < old(self).len(),
            idim < old(self).ndims,
            idim + 1 < N,
            idim + 1 == old(self).ndims || idim + 2 < N,
            old(self).attribute_room(1),
            old(self).removable(dart.0 as int, idim as int) ==> old(self).removal_defined(dart.0 as int, idim as int),
        ensures
            final(self).wf(),
            r == old(self).removable(dart.0 as int, idim as int),
            !r ==> *final(self) == *old(self),
            r ==> exists|listing: Seq<DartIndex>, mid: Self|
                #![trigger mid.excised(old(self), listing, idim as int, idim + 1)]
                {
                    let cell = ids(listing);
                    let pair = old(self).exit_pair(cell, listing, idim as int, idim + 1,
                        old(self).last_exit(cell, listing, idim as int, listing.len() as int));
                    &&& old(self).is_orbit(dart.0 as int, seq_without(idim as int, N as int), listing)
                    &&& old(self).last_exit(cell, listing, idim as int, listing.len() as int) >= 0
                    &&& mid.excised(old(self), listing, idim as int, idim + 1)
                    &&& final(self).attributes_merged(&mid, pair.0.0 as int, pair.1.0 as int, idim + 1)
                },
            final(self).marks@ == old(self).marks@,
            r && old(self).involutive() && old(self).flat_above() && old(self).placeholder_unlinked()
                && old(self).is_init(dart.0 as int) && idim + 1 < old(self).ndims ==> final(self).involutive(),
            old(self).involutive() && old(self).flat_above() && old(self).is_init(dart.0 as int) && r ==> {
                let cell = old(self).cell(dart.0 as int, idim as int);
                &&& forall|x: int| 0 <= x < old(self).len() ==> #[trigger] final(self).is_init(x) == (old(self).is_init(x) && !cell.contains(x))
                &&& forall|x: int, k: int| 0 <= x < old(self).len() && old(self).is_init(x) && 0 <= k < N ==> #[trigger] final(self).alpha(x, k) == (
                    if cell.contains(x) {
                        x
                    } else if k == idim && cell.contains(old(self).alpha(x, idim as int)) {
                        old(self).walk_end(cell, old(self).alpha(x, idim as int), idim as int, idim + 1)
                    } else {
                        old(self).alpha(x, k)
                    })
            },
    {
        if !self.is_removable(dart, idim) {
            return false;
        }
        let ghost o = *old(self);
        let (last, listing) = self.excise(dart, idim, idim + 1);
        let ghost cell = ids(listing@);
        proof {
            o.lemma_orbit_ids(dart.0 as int, seq_without(idim as int, N as int), listing@);
            let x = choose|x: int| o.cell(dart.0 as int, idim as int).contains(x) && !o.cell(dart.0 as int, idim as int).contains(#[trigger] o.alpha(x, idim as int));
            let k = choose|k: int| 0 <= k < listing@.len() && #[trigger] listing@[k].0 == x;
            assert(!cell.contains(o.alpha(listing@[k].0 as int, idim as int)));
            assert(last is Some);
        }
        let ghost cut = *self;
        let mark = self.reserve_mark();
        self.mark_all(&listing, &mark);
        self.free_mark(mark);
        let ghost mid = *self;
        proof {
            assert(mid.marks@ =~= o.marks@);
            assert(mid.excised(&o, listing@, idim as int, idim + 1)) by {
                assert(mid.darts@ == cut.darts@);
                assert forall|d: int, k: int| 0 <= d < o.len() && 0 <= k < N implies #[trigger] mid.alpha(d, k) == cut.alpha(d, k) by {}
            }
        }
        let (da1, da2) = last.unwrap();
        self.merge_attributes(&da1, &da2, idim + 1);
        proof {
            assert(self.marks@ == mid.marks@);
            if o.involutive() && o.flat_above() && o.is_init(dart.0 as int) {
                o.lemma_excised_plain(&mid, dart.0 as int, listing@, idim as int, idim + 1);
                assert forall|x: int, k: int| 0 <= x < self.len() && 0 <= k < N implies
                    #[trigger] self.alpha(x, k) == mid.alpha(x, k) && self.darts@[x].init == mid.darts@[x].init by {
                    assert(self.darts@[x].alphas@ == mid.darts@[x].alphas@);
                }
                assert forall|x: int| 0 <= x < self.len() implies #[trigger] self.is_init(x) == mid.is_init(x) by {
                    assert(self.darts@[x].alphas@ == mid.darts@[x].alphas@);
                }
            }
            if o.involutive() && o.flat_above() && o.placeholder_unlinked() && o.is_init(dart.0 as int) && idim + 1 < o.ndims {
                o.lemma_excised_keeps_involutive(&mid, dart.0 as int, listing@, idim as int, idim + 1);
                assert forall|x: int, k: int| 0 <= x < self.len() && 0 <= k < N implies
                    #[trigger] self.alpha(x, k) == mid.alpha(x, k) && self.darts@[x].init == mid.darts@[x].init by {
                    assert(self.darts@[x].alphas@ == mid.darts@[x].alphas@);
                }
                assert forall|x: int, k: int| 0 <= x < self.len() && self.is_init(x) && 0 <= k < self.ndims implies {
                    let e = #[trigger] self.alpha(x, k);
                    &&& 0 <= e < self.len()
                    &&& self.is_init(e)
                    &&& self.alpha(e, k) == x
                } by {
                    assert(self.darts@[x].alphas@ == mid.darts@[x].alphas@);
                    let e = mid.alpha(x, k);
                    assert(mid.is_init(x));
                    assert(self.darts@[e].alphas@ == mid.darts@[e].alphas@);
                }
            }
        }
        true
    }

    /// Marks every dart of `listing` with `mark`, a mark that is held and
    /// under which no dart is marked yet.
    pub(crate) fn mark_all(&mut self, listing: &Vec<DartIndex>, mark: &MarkIndex)
        requires
            old(self).wf(),
            old(self).marks@.contains_key(mark.0),
            forall|d: int| !old(self).marked(mark.0, d),
            forall|i: int| 0 <= i < listing@.len() ==> (#[trigger] listing@[i]).0 < old(self).len(),
        ensures
            final(self).wf(),
            final(self).same_except_marks(old(self)),
            final(self).marks@.dom() == old(self).marks@.dom(),
            forall|m: usize, d: int| #[trigger] final(self).marked(m, d) == (
                if m == mark.0 { ids(listing@).contains(d) } else { old(self).marked(m, d) }),
            forall|m: usize| m != mark.0 && old(self).marks@.contains_key(m) ==> #[trigger] final(self).marks@[m] == old(self).marks@[m],
    {
        let ghost o = *old(self);
        let mut i: usize = 0;
        while i < listing.len()
            invariant
                self.wf(),
                o.wf(),
                self.same_except_marks(&o),
                self.marks@.dom() == o.marks@.dom(),
                o.marks@.contains_key(mark.0),
                forall|k: int| 0 <= k < listing@.len() ==> (#[trigger] listing@[k]).0 < o.len(),
                i <= listing@.len(),
                forall|m: usize, d: int| #[trigger] self.marked(m, d) == (
                    if m == mark.0 { ids(listing@.subrange(0, i as int)).contains(d) } else { o.marked(m, d) }),
                forall|m: usize| m != mark.0 && o.marks@.contains_key(m) ==> #[trigger] self.marks@[m] == o.marks@[m],
            decreases listing@.len() - i,
        {
            let di = listing[i];
            let ghost pre = *self;
            self.mark(&di, mark);
            proof {
                let sub = listing@.subrange(0, i as int);
                let sub1 = listing@.subrange(0, i + 1);
                assert forall|m: usize, d: int| #[trigger] self.marked(m, d) == (
                    if m == mark.0 { ids(sub1).contains(d) } else { o.marked(m, d) }) by {
                    assert(self.marked(m, d) == (if m == mark.0 && d == di.0 { true } else { pre.marked(m, d) }));
                    if m == mark.0 {
                        if ids(sub1).contains(d) {
                            let k = choose|k: int| 0 <= k < sub1.len() && #[trigger] sub1[k].0 == d;
                            if k < i {
                                assert(sub[k].0 == d);
                            }
                        }
                        if ids(sub).contains(d) {
                            let k = choose|k: int| 0 <= k < sub.len() && #[trigger] sub[k].0 == d;
                            assert(sub1[k].0 == d);
                        }
                        if d == di.0 {
                            assert(sub1[i as int].0 == d);
                        }
                    }
                }
            }
            i = i + 1;
        }
        proof {
            assert(listing@.subrange(0, listing@.len() as int) =~= listing@);
        }
    }

    /// Cuts the `idim`-cell of `dart` out of the map (see `excised`).
    /// Returns the last relinked pair, and the listing of the cut darts.
    pub(crate) fn excise(&mut self, dart: &DartIndex, idim: usize, j: usize) -> (res: (Option<(DartIndex, DartIndex)>, Vec<DartIndex>))
        requires
            old(self).wf(),
            dart.0 < old(self).len(),
            idim < N,
            j < N,
            j != idim,
            old(self).excisable(dart.0 as int, idim as int, j as int),
        ensures
            final(self).wf(),
            old(self).is_orbit(dart.0 as int, seq_without(idim as int, N as int), res.1@),
            final(self).excised(old(self), res.1@, idim as int, j as int),
            final(self).marks@ == old(self).marks@,
            res.0 == (if old(self).last_exit(ids(res.1@), res.1@, idim as int, res.1@.len() as int) < 0 {
                None
            } else {
                Some(old(self).exit_pair(ids(res.1@), res.1@, idim as int, j as int,
                    old(self).last_exit(ids(res.1@), res.1@, idim as int, res.1@.len() as int)))
            }),
            res.0 is Some <==> exists|i: int| 0 <= i < res.1@.len() && !ids(res.1@).contains(old(self).alpha((#[trigger] res.1@[i]).0 as int, idim as int)),
            res.0 matches Some(p) ==> p.0.0 < old(self).len() && p.1.0 < old(self).len(),
    {
        let ghost o = *old(self);
        let iseq = get_seq(idim, N);
        let listing = self.orbit_darts(*dart, iseq.as_slice());
        let ghost cell = ids(listing@);
        proof {
            o.lemma_orbit_ids(dart.0 as int, seq_without(idim as int, N as int), listing@);
        }
        let mut in_cell: Vec<bool> = vec_repeat(false, self.darts.len());
        let mut i: usize = 0;
        while i < listing.len()
            invariant
                o.wf(),
                *self == o,
                i <= listing@.len(),
                in_cell@.len() == o.len(),
                forall|k: int| 0 <= k < listing@.len() ==> (#[trigger] listing@[k]).0 < o.len(),
                forall|x: int| 0 <= x < o.len() ==> (#[trigger] in_cell@[x] <==> ids(listing@.subrange(0, i as int)).contains(x)),
            decreases listing@.len() - i,
        {
            let di = listing[i];
            in_cell.set(di.0, true);
            proof {
                let sub = listing@.subrange(0, i as int);
                let sub1 = listing@.subrange(0, i + 1);
                assert forall|x: int| 0 <= x < o.len() implies (#[trigger] in_cell@[x] <==> ids(sub1).contains(x)) by {
                    if ids(sub1).contains(x) {
                        let k = choose|k: int| 0 <= k < sub1.len() && #[trigger] sub1[k].0 == x;
                        if k < i {
                            assert(sub[k].0 == x);
                        }
                    }
                    if ids(sub).contains(x) {
                        let k = choose|k: int| 0 <= k < sub.len() && #[trigger] sub[k].0 == x;
                        assert(sub1[k].0 == x);
                    }
                    if x == di.0 {
                        assert(sub1[i as int].0 == x);
                    }
                }
            }
            i = i + 1;
        }
        proof {
            assert(listing@.subrange(0, listing@.len() as int) =~= listing@);
            let sw = seq_without(idim as int, N as int);
            assert forall|x: int, jj: int| cell.contains(x) && 0 <= jj < seq![j].len() implies {
                let y = #[trigger] o.alpha(x, seq![j][jj] as int);
                y == x || y == 0 || cell.contains(y)
            } by {
                let idx: int = if j < idim { j as int } else { j - 1 };
                assert(sw[idx] == j);
                assert(o.alpha(x, sw[idx] as int) == o.alpha(x, j as int));
            }
            assert(o.closed_under(cell, seq![j]));
            assert forall|k: int| 0 <= k < listing@.len() implies cell.contains((#[trigger] listing@[k]).0 as int) by {}
            assert forall|k: int| 0 <= k < listing@.len() implies o.alpha((#[trigger] listing@[k]).0 as int, idim as int) != 0 by {
                assert(cell.contains(listing@[k].0 as int));
            }
            assert forall|k: int| 0 <= k < listing@.len() && !cell.contains(o.alpha((#[trigger] listing@[k]).0 as int, idim as int))
                implies o.walk_exits(cell, listing@[k].0 as int, idim as int, j as int) by {
                assert(cell.contains(listing@[k].0 as int));
            }
            assert(o.relinkable(cell, listing@, idim as int, j as int));
        }
        let last = self.relink_around(&listing, &in_cell, idim, j, Ghost(cell));
        let ghost mid = *self;
        proof {
            assert(last is Some <==> exists|i: int| 0 <= i < listing@.len() && !cell.contains(o.alpha((#[trigger] listing@[i]).0 as int, idim as int)));
        }
        proof {
            assert forall|k: int| 0 <= k < listing@.len() implies 0 < (#[trigger] listing@[k]).0 < mid.len() by {
                if k == 0 {
                    assert(listing@[0].0 == dart.0);
                }
            }
        }
        self.detach_all(&listing);
        proof {
            assert forall|d: int| 0 <= d < o.len() implies {
                &&& (#[trigger] self.darts@[d]).init == (o.darts@[d].init && !cell.contains(d))
                &&& self.darts@[d].attributes@ == o.darts@[d].attributes@
                &&& self.darts@[d].links@ == o.darts@[d].links@
            } by {
                assert(mid.darts@[d].init == o.darts@[d].init);
                if !cell.contains(d) {
                    assert(self.dart_unchanged(&mid, d));
                }
            }
            assert forall|d: int, k: int| 0 <= d < o.len() && 0 <= k < N implies #[trigger] self.alpha(d, k) == (
                if cell.contains(d) {
                    d
                } else if k == idim {
                    o.relinked(cell, listing@, idim as int, j as int, d, listing@.len() as int)
                } else {
                    o.alpha(d, k)
                }) by {
                if !cell.contains(d) {
                    assert(self.dart_unchanged(&mid, d));
                    assert(self.alpha(d, k) == mid.alpha(d, k));
                    if k == idim {
                        assert(mid.alpha(d, idim as int) == o.relinked(cell, listing@, idim as int, j as int, d, listing@.len() as int));
                    }
                }
            }
            assert(mid.removals_of(listing@) == o.removals_of(listing@)) by {
                lemma_removals_of_same(&mid, &o, listing@);
            }
        }
        (last, listing)
    }

    /// The walk from `d` that leaves `cell` at step `n`.
    fn walk_out(&self, in_cell: &Vec<bool>, d: DartIndex, idim: usize, j: usize, Ghost(cell): Ghost<Set<int>>) -> (r: DartIndex)
        requires
            self.wf(),
            d.0 < self.len(),
            idim < N,
            j < N,
            in_cell@.len() == self.len(),
            forall|x: int| 0 <= x < self.len() ==> (#[trigger] in_cell@[x] <==> cell.contains(x)),
            self.walk_exits(cell, d.0 as int, idim as int, j as int),
        ensures
            r.0 == self.walk_end(cell, d.0 as int, idim as int, j as int),
            r.0 < self.len(),
    {
        let ghost n = choose|n: nat| self.exits_at(cell, d.0 as int, idim as int, j as int, n);
        let y = self.darts[d.0].get_alpha(j);
        assert(self.alpha(d.0 as int, j as int) < self.len());
        let mut d2 = self.darts[y.0].get_alpha(idim);
        assert(self.alpha(y.0 as int, idim as int) < self.len());
        let ghost mut steps: nat = 1;
        assert(self.hops(d.0 as int, idim as int, j as int, 1) == d2.0) by {
            assert(self.hops(d.0 as int, idim as int, j as int, 0) == d.0);
        }
        while in_cell[d2.0]
            invariant
                self.wf(),
                idim < N,
                j < N,
                in_cell@.len() == self.len(),
                forall|x: int| 0 <= x < self.len() ==> (#[trigger] in_cell@[x] <==> cell.contains(x)),
                self.exits_at(cell, d.0 as int, idim as int, j as int, n),
                1 <= steps <= n,
                d2.0 == self.hops(d.0 as int, idim as int, j as int, steps),
                d2.0 < self.len(),
            decreases n - steps,
        {
            let y = self.darts[d2.0].get_alpha(j);
            assert(self.alpha(d2.0 as int, j as int) < self.len());
            d2 = self.darts[y.0].get_alpha(idim);
            assert(self.alpha(y.0 as int, idim as int) < self.len());
            proof {
                steps = steps + 1;
            }
        }
        proof {
            assert(self.exits_at(cell, d.0 as int, idim as int, j as int, steps));
            let c = choose|m: nat| self.exits_at(cell, d.0 as int, idim as int, j as int, m);
            if c < steps {
                assert(cell.contains(self.hops(d.0 as int, idim as int, j as int, c)));
            } else if c > steps {
                assert(cell.contains(self.hops(d.0 as int, idim as int, j as int, steps)));
            }
        }
        d2
    }

    /// Relinks, along alpha(`idim`), every outside neighbour of the darts of
    /// `listing` to the end of the walk from that dart; returns the last
    /// pair relinked.
    fn relink_around(&mut self, listing: &Vec<DartIndex>, in_cell: &Vec<bool>, idim: usize, j: usize, Ghost(cell): Ghost<Set<int>>)
        -> (r: Option<(DartIndex, DartIndex)>)
        requires
            old(self).wf(),
            idim < N,
            j < N,
            in_cell@.len() == old(self).len(),
            forall|x: int| 0 <= x < old(self).len() ==> (#[trigger] in_cell@[x] <==> cell.contains(x)),
            forall|i: int| 0 <= i < listing@.len() ==> (#[trigger] listing@[i]).0 < old(self).len(),
            forall|i: int| 0 <= i < listing@.len() ==> cell.contains((#[trigger] listing@[i]).0 as int),
            old(self).closed_under(cell, seq![j]),
            old(self).relinkable(cell, listing@, idim as int, j as int),
        ensures
            final(self).wf(),
            final(self).only_alpha_changed(old(self), idim as int),
            forall|y: int| 0 <= y < old(self).len() ==> #[trigger] final(self).alpha(y, idim as int)
                == old(self).relinked(cell, listing@, idim as int, j as int, y, listing@.len() as int),
            r is Some <==> exists|i: int| 0 <= i < listing@.len() && !cell.contains(old(self).alpha((#[trigger] listing@[i]).0 as int, idim as int)),
            r matches Some(p) ==> p.0.0 < old(self).len() && p.1.0 < old(self).len(),
            r == (if old(self).last_exit(cell, listing@, idim as int, listing@.len() as int) < 0 {
                None
            } else {
                Some(old(self).exit_pair(cell, listing@, idim as int, j as int, old(self).last_exit(cell, listing@, idim as int, listing@.len() as int)))
            }),
    {
        let ghost o = *old(self);
        let mut targets: Vec<Option<(DartIndex, DartIndex)>> = Vec::new();
        let mut i: usize = 0;
        while i < listing.len()
            invariant
                *self == o,
                o.wf(),
                idim < N,
                j < N,
                in_cell@.len() == o.len(),
                forall|x: int| 0 <= x < o.len() ==> (#[trigger] in_cell@[x] <==> cell.contains(x)),
                forall|k: int| 0 <= k < listing@.len() ==> (#[trigger] listing@[k]).0 < o.len(),
                o.relinkable(cell, listing@, idim as int, j as int),
                i <= listing@.len(),
                targets@.len() == i,
                forall|k: int| 0 <= k < i ==> #[trigger] targets@[k] == (
                    if !cell.contains(o.alpha(listing@[k].0 as int, idim as int)) {
                        Some((DartIndex(o.alpha(listing@[k].0 as int, idim as int) as usize),
                            DartIndex(o.walk_end(cell, listing@[k].0 as int, idim as int, j as int) as usize)))
                    } else {
                        None
                    }),
                forall|k: int| 0 <= k < i && !cell.contains(o.alpha((#[trigger] listing@[k]).0 as int, idim as int))
                    ==> o.walk_end(cell, listing@[k].0 as int, idim as int, j as int) < o.len(),
            decreases listing@.len() - i,
        {
            let di = listing[i];
            let d1 = self.darts[di.0].get_alpha(idim);
            assert(o.alpha(di.0 as int, idim as int) < o.len());
            if !in_cell[d1.0] {
                let d2 = self.walk_out(in_cell, di, idim, j, Ghost(cell));
                targets.push(Some((d1, d2)));
            } else {
                targets.push(None);
            }
            i = i + 1;
        }
        let mut last: Option<(DartIndex, DartIndex)> = None;
        let mut i: usize = 0;
        while i < targets.len()
            invariant
                self.wf(),
                o.wf(),
                idim < N,
                forall|k: int| 0 <= k < listing@.len() ==> (#[trigger] listing@[k]).0 < o.len(),
                targets@.len() == listing@.len(),
                forall|k: int| 0 <= k < listing@.len() ==> #[trigger] targets@[k] == (
                    if !cell.contains(o.alpha(listing@[k].0 as int, idim as int)) {
                        Some((DartIndex(o.alpha(listing@[k].0 as int, idim as int) as usize),
                            DartIndex(o.walk_end(cell, listing@[k].0 as int, idim as int, j as int) as usize)))
                    } else {
                        None
                    }),
                forall|k: int| 0 <= k < listing@.len() && !cell.contains(o.alpha((#[trigger] listing@[k]).0 as int, idim as int))
                    ==> o.walk_end(cell, listing@[k].0 as int, idim as int, j as int) < o.len(),
                i <= targets@.len(),
                self.only_alpha_changed(&o, idim as int),
                forall|y: int| 0 <= y < o.len() ==> #[trigger] self.alpha(y, idim as int) == o.relinked(cell, listing@, idim as int, j as int, y, i as int),
                last is Some <==> exists|k: int| 0 <= k < i && !cell.contains(o.alpha((#[trigger] listing@[k]).0 as int, idim as int)),
                last matches Some(p) ==> p.0.0 < o.len() && p.1.0 < o.len(),
                last == (if o.last_exit(cell, listing@, idim as int, i as int) < 0 {
                    None
                } else {
                    Some(o.exit_pair(cell, listing@, idim as int, j as int, o.last_exit(cell, listing@, idim as int, i as int)))
                }),
            decreases targets@.len() - i,
        {
            match targets[i] {
                Some(pair) => {
                    let ghost before = *self;
                    assert(o.alpha(listing@[i as int].0 as int, idim as int) < o.len());
                    self.set_dart_alpha(pair.0.0, idim, pair.1);
                    last = Some(pair);
                    proof {
                        assert forall|d: int| 0 <= d < o.len() implies {
                            &&& (#[trigger] self.darts@[d]).init == o.darts@[d].init
                            &&& self.darts@[d].attributes@ == o.darts@[d].attributes@
                            &&& self.darts@[d].links@ == o.darts@[d].links@
                        } by {
                            assert(before.darts@[d].init == o.darts@[d].init);
                            assert(self.darts@[d].init == before.darts@[d].init);
                        }
                        assert forall|d: int, k: int| 0 <= d < o.len() && 0 <= k < N && k != idim implies #[trigger] self.alpha(d, k) == o.alpha(d, k) by {
                            assert(before.alpha(d, k) == o.alpha(d, k));
                        }
                        assert(self.only_alpha_changed(&o, idim as int));
                        assert forall|y: int| 0 <= y < o.len() implies #[trigger] self.alpha(y, idim as int) == o.relinked(cell, listing@, idim as int, j as int, y, i + 1) by {
                            assert(before.alpha(y, idim as int) == o.relinked(cell, listing@, idim as int, j as int, y, i as int));
                        }
                        assert(!cell.contains(o.alpha(listing@[i as int].0 as int, idim as int)));
                    }
                },
                None => {
                    proof {
                        assert forall|y: int| 0 <= y < o.len() implies #[trigger] self.alpha(y, idim as int) == o.relinked(cell, listing@, idim as int, j as int, y, i + 1) by {
                            if o.alpha(listing@[i as int].0 as int, idim as int) == y {
                                assert(cell.contains(y));
                            }
                        }
                        if exists|k: int| 0 <= k < i + 1 && !cell.contains(o.alpha((#[trigger] listing@[k]).0 as int, idim as int)) {
                            let k = choose|k: int| 0 <= k < i + 1 && !cell.contains(o.alpha((#[trigger] listing@[k]).0 as int, idim as int));
                            assert(k < i);
                        }
                    }
                },
            }
            i = i + 1;
        }
        last
    }
}

/// Removal actions for a listing depend only on the listed darts'
/// attributes and the attribute books.
proof fn lemma_removals_of_same<const N: usize, const NA: usize, const NL: usize>(a: &NGMap<N, NA, NL>, b: &NGMap<N, NA, NL>, s: Seq<DartIndex>)
    requires
        a.len() == b.len(),
        forall|i: int| 0 <= i < s.len() ==> (#[trigger] s[i]).0 < a.len(),
        forall|d: int| 0 <= d < a.len() ==> (#[trigger] a.darts@[d]).attributes@ == b.darts@[d].attributes@,
        a.attribute_container_indices@ == b.attribute_container_indices@,
        a.attribute_index_allocators@ == b.attribute_index_allocators@,
    ensures
        a.removals_of(s) == b.removals_of(s),
    decreases s.len(),
{
    if s.len() > 0 {
        assert forall|i: int| 0 <= i < s.drop_last().len() implies (#[trigger] s.drop_last()[i]).0 < a.len() by {
            assert(s.drop_last()[i] == s[i]);
        }
        lemma_removals_of_same(a, b, s.drop_last());
        let d = s.last().0 as int;
        assert(a.darts@[d].attributes@ == b.darts@[d].attributes@);
        a.lemma_removals_same(b, d, N as int);
    }
}

} // verus!
