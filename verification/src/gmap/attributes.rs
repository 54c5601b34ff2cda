//! Attribute bookkeeping: which slot holds the attributes of `idim`-cells,
//! which attribute index each dart carries, and the allocation of attribute
//! indices. Values live in containers outside the map; the map records in
//! `attribute_actions` what must happen to them.

use vstd::prelude::*;
use crate::index::{DartIndex, AttributeIndex};
use crate::index_allocator::IndexAllocator;
use crate::orbits::seq_without;
use crate::iterators::{ids, to_ints};
use super::{NGMap, AttributeAction};

verus! {

broadcast use vstd::std_specs::hash::group_hash_axioms;

impl<const N: usize, const NA: usize, const NL: usize> NGMap<N, NA, NL> {
    /// The attribute index of dart `d` for `idim`-cells: the one in its
    /// slot, or null if no slot was reserved for `idim`.
    pub open spec fn attr_index(&self, d: int, idim: int) -> AttributeIndex {
        match self.slot_of(idim) {
            Some(s) => self.attr(d, s as int),
            None => AttributeIndex(usize::MAX),
        }
    }

    /// `true` if a slot was reserved for attributes of `idim`-cells.
    pub fn has_attribute_container(&self, idim: usize) -> (r: bool)
        ensures
            r == (self.slot_of(idim as int) is Some),
    {
        self.attribute_container_indices.contains_key(&idim)
    }

    /// The slot whose container holds the attributes of `idim`-cells, if
    /// one was reserved and its container is live.
    pub fn attribute_slot(&self, idim: usize) -> (r: Option<usize>)
        requires
            self.wf(),
        ensures
            r == (if self.has_container(idim as int) { self.slot_of(idim as int) } else { None }),
    {
        match self.attribute_container_indices.get(&idim) {
            Some(idx) => {
                if self.attribute_index_allocators[*idx].is_some() {
                    Some(*idx)
                } else {
                    None
                }
            },
            None => None,
        }
    }

    /// The attribute index of the `idim`-cell of `dart`; null if no slot
    /// was reserved for `idim`.
    pub fn get_attribute_index(&self, dart: &DartIndex, idim: usize) -> (r: AttributeIndex)
        requires
            self.wf(),
            dart.0 < self.len(),
        ensures
            r == self.attr_index(dart.0 as int, idim as int),
    {
        match self.attribute_container_indices.get(&idim) {
            Some(idx) => {
                assert(self.darts@[dart.0 as int].wf());
                self.darts[dart.0].get_attribute_index(*idx)
            },
            None => AttributeIndex::null(),
        }
    }

    /// A fresh attribute index from the allocator of the slot for `idim`,
    /// or `None` if `idim` has no live container.
    pub(crate) fn reserve_attribute_index(&mut self, idim: usize) -> (r: Option<AttributeIndex>)
        requires
            old(self).wf(),
            old(self).has_container(idim as int) ==> old(self).slot_count(old(self).slot_of(idim as int).unwrap() as int) + 1 <= usize::MAX,
        ensures
            final(self).wf(),
            final(self).ndims == old(self).ndims,
            final(self).darts@ == old(self).darts@,
            final(self).dart_index_allocator == old(self).dart_index_allocator,
            final(self).marks@ == old(self).marks@,
            final(self).attribute_container_indices@ == old(self).attribute_container_indices@,
            final(self).attribute_actions@ == old(self).attribute_actions@,
            !old(self).has_container(idim as int) ==> r is None && final(self).attribute_index_allocators@ == old(self).attribute_index_allocators@,
            old(self).has_container(idim as int) ==> {
                let s = old(self).slot_of(idim as int).unwrap() as int;
                let a = old(self).attribute_index_allocators@[s].unwrap();
                &&& r == Some(AttributeIndex(a.count))
                &&& final(self).slot_advanced(old(self), s)
            },
    {
        match self.attribute_container_indices.get(&idim) {
            Some(idx) => {
                let idx = *idx;
                if self.attribute_index_allocators[idx].is_some() {
                    let mut a = self.attribute_index_allocators[idx].take().unwrap();
                    let ghost a0 = a;
                    let index = a.reserve_index();
                    assert(a.nodes@ == a0.nodes@);
                    self.attribute_index_allocators.set(idx, Some(a));
                    proof {
                        lemma_wf_same_attributes(old(self), self);
                    }
                    Some(AttributeIndex(index))
                } else {
                    None
                }
            },
            None => None,
        }
    }

    /// Records the removal of the attribute of the `idim`-cell of `dart`,
    /// if `idim` has a live container.
    pub fn remove_attribute_from_dart(&mut self, dart: &DartIndex, idim: usize)
        requires
            old(self).wf(),
            dart.0 < old(self).len(),
        ensures
            final(self).wf(),
            final(self).ndims == old(self).ndims,
            final(self).darts@ == old(self).darts@,
            final(self).dart_index_allocator == old(self).dart_index_allocator,
            final(self).marks@ == old(self).marks@,
            final(self).attribute_container_indices@ == old(self).attribute_container_indices@,
            final(self).attribute_index_allocators@ == old(self).attribute_index_allocators@,
            final(self).attribute_actions@ == old(self).attribute_actions@ + old(self).removal(dart.0 as int, idim as int),
    {
        match self.attribute_slot(idim) {
            Some(slot) => {
                let index = self.get_attribute_index(dart, idim);
                self.attribute_actions.push(AttributeAction::Remove { slot: slot, index: index });
                proof {
                    lemma_wf_same_attributes(old(self), self);
                }
            },
            None => {
                assert(old(self).removal(dart.0 as int, idim as int) =~= Seq::<AttributeAction>::empty());
                assert(self.attribute_actions@ =~= old(self).attribute_actions@ + old(self).removal(dart.0 as int, idim as int));
            },
        }
    }

    /// The darts of the `idim`-cell of `d`.
    pub open spec fn cell(&self, d: int, idim: int) -> Set<int> {
        self.orbit_set(d, seq_without(idim, N as int))
    }

    /// Only the attribute indices of slot `s` changed since `old`: each
    /// dart has `f` of its old index there.
    pub open spec fn only_slot_changed(&self, old: &Self, s: int) -> bool {
        &&& self.len() == old.len()
        &&& forall|d: int| 0 <= d < old.len() ==> {
            &&& (#[trigger] self.darts@[d]).init == old.darts@[d].init
            &&& self.darts@[d].alphas@ == old.darts@[d].alphas@
            &&& self.darts@[d].links@ == old.darts@[d].links@
            &&& self.darts@[d].attributes@.len() == NA
            &&& forall|t: int| 0 <= t < NA && t != s ==> #[trigger] self.darts@[d].attributes@[t] == old.darts@[d].attributes@[t]
        }
    }

    /// Gives every dart of the `idim`-cell of `dart` the attribute index
    /// `index` in the slot of `idim`; `false` if `idim` has no slot.
    pub(crate) fn set_attribute_index_to_cell(&mut self, dart: &DartIndex, index: AttributeIndex, idim: usize) -> (r: bool)
        requires
            old(self).wf(),
            dart.0 < old(self).len(),
            idim < N,
        ensures
            final(self).wf(),
            final(self).same_books(old(self)),
            r == (old(self).slot_of(idim as int) is Some),
            !r ==> final(self).darts@ == old(self).darts@,
            r ==> {
                let s = old(self).slot_of(idim as int).unwrap() as int;
                &&& final(self).only_slot_changed(old(self), s)
                &&& forall|d: int| 0 <= d < old(self).len() ==> #[trigger] final(self).attr(d, s) == (
                    if old(self).cell(dart.0 as int, idim as int).contains(d) { index } else { old(self).attr(d, s) })
            },
    {
        match self.attribute_container_indices.get(&idim) {
            Some(idx) => {
                let idx = *idx;
                let darts = self.iter_darts_in_cell(*dart, idim).items;
                let ghost o = *old(self);
                proof {
                    o.lemma_orbit_ids(dart.0 as int, seq_without(idim as int, N as int), darts@);
                }
                let mut k: usize = 0;
                while k < darts.len()
                    invariant
                        self.wf(),
                        o.wf(),
                        self.same_books(&o),
                        idx < NA,
                        ids(darts@) == o.cell(dart.0 as int, idim as int),
                        forall|i: int| 0 <= i < darts@.len() ==> (#[trigger] darts@[i]).0 < o.len(),
                        k <= darts@.len(),
                        self.only_slot_changed(&o, idx as int),
                        forall|d: int| 0 <= d < o.len() ==> #[trigger] self.attr(d, idx as int) == (
                            if exists|i: int| 0 <= i < k && (#[trigger] darts@[i]).0 == d { index } else { o.attr(d, idx as int) }),
                    decreases darts@.len() - k,
                {
                    let di = darts[k];
                    let ghost before = *self;
                    assert(self.darts@[di.0 as int].wf());
                    self.darts[di.0].set_attribute_index(index, idx);
                    k = k + 1;
                    proof {
                        assert forall|d: int, kk: int| 0 <= d < self.len() && 0 <= kk < N implies #[trigger] self.alpha(d, kk) < self.len() by {
                            assert(before.alpha(d, kk) < before.len());
                        }
                        assert forall|d: int| 0 <= d < self.len() implies (#[trigger] self.darts@[d]).wf() by {
                            assert(before.darts@[d].wf());
                        }
                        assert forall|m: usize| self.marks@.contains_key(m) implies (#[trigger] self.marks@[m])@.len() <= self.len() by {
                            assert(before.marks@[m]@.len() <= before.len());
                        }
                        assert forall|d: int| 0 <= d < o.len() implies #[trigger] self.attr(d, idx as int) == (
                            if exists|i: int| 0 <= i < k && (#[trigger] darts@[i]).0 == d { index } else { o.attr(d, idx as int) }) by {
                            if d == di.0 {
                                assert(darts@[k - 1].0 == d);
                            } else {
                                assert(self.darts@[d] == before.darts@[d]);
                                assert(before.attr(d, idx as int) == (
                                    if exists|i: int| 0 <= i < k - 1 && (#[trigger] darts@[i]).0 == d { index } else { o.attr(d, idx as int) }));
                                if exists|i: int| 0 <= i < k && (#[trigger] darts@[i]).0 == d {
                                    let i = choose|i: int| 0 <= i < k && (#[trigger] darts@[i]).0 == d;
                                    assert(i < k - 1);
                                }
                            }
                        }
                        assert forall|d: int| 0 <= d < o.len() implies {
                            &&& (#[trigger] self.darts@[d]).init == o.darts@[d].init
                            &&& self.darts@[d].alphas@ == o.darts@[d].alphas@
                            &&& self.darts@[d].links@ == o.darts@[d].links@
                            &&& self.darts@[d].attributes@.len() == NA
                            &&& forall|t: int| 0 <= t < NA && t != idx ==> #[trigger] self.darts@[d].attributes@[t] == o.darts@[d].attributes@[t]
                        } by {
                            if d != di.0 {
                                assert(self.darts@[d] == before.darts@[d]);
                            }
                        }
                    }
                }
                proof {
                    assert forall|d: int| 0 <= d < o.len() implies #[trigger] self.attr(d, idx as int) == (
                        if o.cell(dart.0 as int, idim as int).contains(d) { index } else { o.attr(d, idx as int) }) by {
                        if o.cell(dart.0 as int, idim as int).contains(d) {
                            assert(ids(darts@).contains(d));
                        }
                    }
                }
                true
            },
            None => false,
        }
    }

    /// Merges the attributes of the `idim`-cells of `dart1` and `dart2`
    /// under a fresh attribute index, given to the whole `idim`-cell of
    /// `dart1`. Returns that index, or null if `idim` has no live
    /// container.
    pub(crate) fn merge_attributes(&mut self, dart1: &DartIndex, dart2: &DartIndex, idim: usize) -> (r: AttributeIndex)
        requires
            old(self).wf(),
            dart1.0 < old(self).len(),
            dart2.0 < old(self).len(),
            idim < N,
            old(self).attribute_room(1),
        ensures
            final(self).wf(),
            final(self).ndims == old(self).ndims,
            final(self).dart_index_allocator == old(self).dart_index_allocator,
            final(self).marks@ == old(self).marks@,
            final(self).attribute_container_indices@ == old(self).attribute_container_indices@,
            !old(self).has_container(idim as int) ==> r.is_null() && *final(self) == *old(self),
            old(self).has_container(idim as int) ==> {
                let s = old(self).slot_of(idim as int).unwrap() as int;
                &&& r == AttributeIndex(old(self).slot_count(s) as usize)
                &&& !r.is_null()
                &&& final(self).slot_advanced(old(self), s)
                &&& final(self).attribute_actions@ == old(self).attribute_actions@.push(AttributeAction::Merge {
                    slot: s as usize,
                    old0: old(self).attr_index(dart1.0 as int, idim as int),
                    old1: old(self).attr_index(dart2.0 as int, idim as int),
                    new: r,
                })
                &&& final(self).only_slot_changed(old(self), s)
                &&& forall|d: int| 0 <= d < old(self).len() ==> #[trigger] final(self).attr(d, s) == (
                    if old(self).cell(dart1.0 as int, idim as int).contains(d) { r } else { old(self).attr(d, s) })
            },
    {
        match self.attribute_slot(idim) {
            Some(slot) => {
                let index1 = self.get_attribute_index(dart1, idim);
                let index2 = self.get_attribute_index(dart2, idim);
                let index = self.reserve_attribute_index(idim).unwrap();
                self.attribute_actions.push(AttributeAction::Merge { slot: slot, old0: index1, old1: index2, new: index });
                let ghost mid = *self;
                proof {
                    lemma_wf_same_attributes(old(self), &mid);
                    assert forall|d: int, kk: int| 0 <= d < mid.len() && 0 <= kk < N implies #[trigger] mid.alpha(d, kk) == old(self).alpha(d, kk) by {}
                    old(self).lemma_same_alphas_same_orbits(&mid, seq_without(idim as int, N as int));
                }
                self.set_attribute_index_to_cell(dart1, index, idim);
                index
            },
            None => AttributeIndex::null(),
        }
    }

    /// Splits the attribute of the `idim`-cell of `dart1` into two fresh
    /// attribute indices, given to the `idim`-cells of `dart1` and then of
    /// `dart2`. Returns both, or nulls if `idim` has no live container.
    pub(crate) fn split_attributes(&mut self, dart1: &DartIndex, dart2: &DartIndex, idim: usize) -> (r: (AttributeIndex, AttributeIndex))
        requires
            old(self).wf(),
            dart1.0 < old(self).len(),
            dart2.0 < old(self).len(),
            idim < N,
            old(self).attribute_room(2),
        ensures
            final(self).wf(),
            final(self).ndims == old(self).ndims,
            final(self).dart_index_allocator == old(self).dart_index_allocator,
            final(self).marks@ == old(self).marks@,
            final(self).attribute_container_indices@ == old(self).attribute_container_indices@,
            !old(self).has_container(idim as int) ==> r.0.is_null() && r.1.is_null() && *final(self) == *old(self),
            old(self).has_container(idim as int) ==> {
                let s = old(self).slot_of(idim as int).unwrap() as int;
                &&& r.0 == AttributeIndex(old(self).slot_count(s) as usize)
                &&& r.1 == AttributeIndex((old(self).slot_count(s) + 1) as usize)
                &&& final(self).attribute_actions@ == old(self).attribute_actions@.push(AttributeAction::Split {
                    slot: s as usize,
                    old: old(self).attr_index(dart1.0 as int, idim as int),
                    new0: r.0,
                    new1: r.1,
                })
                &&& final(self).slot_count(s) == old(self).slot_count(s) + 2
                &&& forall|t: int| 0 <= t < NA && t != s ==> #[trigger] final(self).attribute_index_allocators@[t] == old(self).attribute_index_allocators@[t]
                &&& final(self).only_slot_changed(old(self), s)
                &&& forall|d: int| 0 <= d < old(self).len() ==> #[trigger] final(self).attr(d, s) == (
                    if old(self).cell(dart2.0 as int, idim as int).contains(d) {
                        r.1
                    } else if old(self).cell(dart1.0 as int, idim as int).contains(d) {
                        r.0
                    } else {
                        old(self).attr(d, s)
                    })
            },
    {
        match self.attribute_slot(idim) {
            Some(slot) => {
                let index = self.get_attribute_index(dart1, idim);
                let ghost o = *old(self);
                let index1 = self.reserve_attribute_index(idim).unwrap();
                proof {
                    assert(self.attribute_room(1)) by {
                        assert forall|t: int| 0 <= t < NA && self.attribute_index_allocators@[t] is Some implies
                            #[trigger] self.attribute_index_allocators@[t].unwrap().count + 1 <= usize::MAX by {
                            assert(o.attribute_index_allocators@[t] is Some);
                        }
                    }
                }
                let index2 = self.reserve_attribute_index(idim).unwrap();
                self.attribute_actions.push(AttributeAction::Split { slot: slot, old: index, new0: index1, new1: index2 });
                let ghost mid = *self;
                proof {
                    lemma_wf_same_attributes(&o, &mid);
                    assert forall|d: int, kk: int| 0 <= d < mid.len() && 0 <= kk < N implies #[trigger] mid.alpha(d, kk) == o.alpha(d, kk) by {}
                    o.lemma_same_alphas_same_orbits(&mid, seq_without(idim as int, N as int));
                }
                self.set_attribute_index_to_cell(dart1, index1, idim);
                let ghost mid2 = *self;
                proof {
                    assert forall|d: int, kk: int| 0 <= d < mid2.len() && 0 <= kk < N implies #[trigger] mid2.alpha(d, kk) == o.alpha(d, kk) by {
                        assert(mid2.darts@[d].alphas@ == mid.darts@[d].alphas@);
                    }
                    o.lemma_same_alphas_same_orbits(&mid2, seq_without(idim as int, N as int));
                }
                self.set_attribute_index_to_cell(dart2, index2, idim);
                proof {
                    let s = slot as int;
                    assert forall|t: int| 0 <= t < NA && t != s implies #[trigger] self.attribute_index_allocators@[t] == o.attribute_index_allocators@[t] by {}
                    assert forall|d: int| 0 <= d < o.len() implies {
                        &&& (#[trigger] self.darts@[d]).init == o.darts@[d].init
                        &&& self.darts@[d].alphas@ == o.darts@[d].alphas@
                        &&& self.darts@[d].links@ == o.darts@[d].links@
                        &&& self.darts@[d].attributes@.len() == NA
                        &&& forall|t: int| 0 <= t < NA && t != s ==> #[trigger] self.darts@[d].attributes@[t] == o.darts@[d].attributes@[t]
                    } by {
                        assert(mid2.darts@[d].attributes@.len() == NA);
                        assert forall|t: int| 0 <= t < NA && t != s implies #[trigger] self.darts@[d].attributes@[t] == o.darts@[d].attributes@[t] by {
                            assert(self.darts@[d].attributes@[t] == mid2.darts@[d].attributes@[t]);
                            assert(mid2.darts@[d].attributes@[t] == mid.darts@[d].attributes@[t]);
                        }
                    }
                    assert forall|d: int| 0 <= d < o.len() implies #[trigger] self.attr(d, s) == (
                        if o.cell(dart2.0 as int, idim as int).contains(d) {
                            index2
                        } else if o.cell(dart1.0 as int, idim as int).contains(d) {
                            index1
                        } else {
                            o.attr(d, s)
                        }) by {
                        assert(mid2.attr(d, s) == (if o.cell(dart1.0 as int, idim as int).contains(d) { index1 } else { mid.attr(d, s) }));
                    }
                }
                (index1, index2)
            },
            None => (AttributeIndex::null(), AttributeIndex::null()),
        }
    }


    /// The position of the last dart of `reps` (before `m`) whose
    /// `idim`-cell holds `x`, or -1.
    pub open spec fn last_cell(&self, reps: Seq<DartIndex>, idim: int, x: int, m: int) -> int
        decreases m,
    {
        if m <= 0 {
            -1
        } else if self.cell(reps[m - 1].0 as int, idim).contains(x) {
            m - 1
        } else {
            self.last_cell(reps, idim, x, m - 1)
        }
    }

    /// This map is `old` after giving the `idim`-cell of each dart of
    /// `reps` in turn a fresh attribute index in slot `s`: the allocator of
    /// slot `s` handed out `reps.len()` indices from its count, and each
    /// dart carries the index of the last of those cells that holds it.
    pub open spec fn cells_indexed(&self, old: &Self, reps: Seq<DartIndex>, idim: int, s: int) -> bool {
        let c0 = old.slot_count(s);
        &&& self.ndims == old.ndims
        &&& self.dart_index_allocator == old.dart_index_allocator
        &&& self.marks@ == old.marks@
        &&& self.attribute_container_indices@ == old.attribute_container_indices@
        &&& self.attribute_actions@ == old.attribute_actions@
        &&& self.only_slot_changed(old, s)
        &&& self.attribute_index_allocators@.len() == NA
        &&& forall|t: int| 0 <= t < NA && t != s ==> #[trigger] self.attribute_index_allocators@[t] == old.attribute_index_allocators@[t]
        &&& self.attribute_index_allocators@[s] is Some
        &&& self.attribute_index_allocators@[s].unwrap().count == c0 + reps.len()
        &&& self.attribute_index_allocators@[s].unwrap().nodes@ == old.attribute_index_allocators@[s].unwrap().nodes@
        &&& forall|d: int| 0 <= d < old.len() ==> #[trigger] self.attr(d, s) == (
            if old.last_cell(reps, idim, d, reps.len() as int) < 0 {
                old.attr(d, s)
            } else {
                AttributeIndex((c0 + old.last_cell(reps, idim, d, reps.len() as int)) as usize)
            })
    }

    /// Gives the `idim`-cell of each dart of `reps`, in turn, a fresh
    /// attribute index (see `cells_indexed`).
    pub(crate) fn index_cells(&mut self, reps: &Vec<DartIndex>, idim: usize)
        requires
            old(self).wf(),
            idim < N,
            old(self).has_container(idim as int),
            forall|i: int| 0 <= i < reps@.len() ==> (#[trigger] reps@[i]).0 < old(self).len(),
            old(self).slot_count(old(self).slot_of(idim as int).unwrap() as int) + reps@.len() <= usize::MAX,
        ensures
            final(self).wf(),
            final(self).cells_indexed(old(self), reps@, idim as int, old(self).slot_of(idim as int).unwrap() as int),
    {
        let ghost o = *old(self);
        let ghost s = o.slot_of(idim as int).unwrap() as int;
        let ghost c0 = o.slot_count(s);
        let mut i: usize = 0;
        while i < reps.len()
            invariant
                self.wf(),
                o.wf(),
                idim < N,
                0 <= s < NA,
                o.slot_of(idim as int) == Some(s as usize),
                o.has_container(idim as int),
                c0 == o.slot_count(s),
                i <= reps@.len(),
                forall|k: int| 0 <= k < reps@.len() ==> (#[trigger] reps@[k]).0 < o.len(),
                c0 + reps@.len() <= usize::MAX,
                self.ndims == o.ndims,
                self.dart_index_allocator == o.dart_index_allocator,
                self.marks@ == o.marks@,
                self.attribute_container_indices@ == o.attribute_container_indices@,
                self.attribute_actions@ == o.attribute_actions@,
                self.only_slot_changed(&o, s),
                self.attribute_index_allocators@.len() == NA,
                forall|t: int| 0 <= t < NA && t != s ==> #[trigger] self.attribute_index_allocators@[t] == o.attribute_index_allocators@[t],
                self.attribute_index_allocators@[s] is Some,
                self.attribute_index_allocators@[s].unwrap().count == c0 + i,
                self.attribute_index_allocators@[s].unwrap().nodes@ == o.attribute_index_allocators@[s].unwrap().nodes@,
                forall|d: int| 0 <= d < o.len() ==> #[trigger] self.attr(d, s) == (
                    if o.last_cell(reps@, idim as int, d, i as int) < 0 {
                        o.attr(d, s)
                    } else {
                        AttributeIndex((c0 + o.last_cell(reps@, idim as int, d, i as int)) as usize)
                    }),
            decreases reps@.len() - i,
        {
            let ghost pre = *self;
            proof {
                assert(self.has_container(idim as int));
            }
            let index = self.reserve_attribute_index(idim).unwrap();
            let ghost mid = *self;
            proof {
                assert(mid.darts@ == pre.darts@);
                assert forall|d: int, k: int| 0 <= d < o.len() && 0 <= k < N implies #[trigger] mid.alpha(d, k) == o.alpha(d, k) by {
                    assert(pre.alpha(d, k) == o.alpha(d, k)) by {
                        assert(pre.darts@[d].alphas@ == o.darts@[d].alphas@);
                    }
                }
                o.lemma_same_alphas_same_orbits(&mid, seq_without(idim as int, N as int));
            }
            self.set_attribute_index_to_cell(&reps[i], index, idim);
            proof {
                assert(index == AttributeIndex((c0 + i) as usize));
                assert(mid.cell(reps@[i as int].0 as int, idim as int) == o.cell(reps@[i as int].0 as int, idim as int));
                assert forall|d: int| 0 <= d < o.len() implies {
                    &&& (#[trigger] self.darts@[d]).init == o.darts@[d].init
                    &&& self.darts@[d].alphas@ == o.darts@[d].alphas@
                    &&& self.darts@[d].links@ == o.darts@[d].links@
                    &&& self.darts@[d].attributes@.len() == NA
                    &&& forall|t: int| 0 <= t < NA && t != s ==> #[trigger] self.darts@[d].attributes@[t] == o.darts@[d].attributes@[t]
                } by {
                    assert(mid.darts@[d] == pre.darts@[d]);
                    assert(self.darts@[d].init == mid.darts@[d].init);
                    assert(pre.darts@[d].init == o.darts@[d].init);
                    assert forall|t: int| 0 <= t < NA && t != s implies #[trigger] self.darts@[d].attributes@[t] == o.darts@[d].attributes@[t] by {
                        assert(self.darts@[d].attributes@[t] == mid.darts@[d].attributes@[t]);
                        assert(pre.darts@[d].attributes@[t] == o.darts@[d].attributes@[t]);
                    }
                }
                assert forall|d: int| 0 <= d < o.len() implies #[trigger] self.attr(d, s) == (
                    if o.last_cell(reps@, idim as int, d, i + 1) < 0 {
                        o.attr(d, s)
                    } else {
                        AttributeIndex((c0 + o.last_cell(reps@, idim as int, d, i + 1)) as usize)
                    }) by {
                    assert(mid.attr(d, s) == pre.attr(d, s));
                }
            }
            i = i + 1;
        }
    }


    /// Slot `s` is the first one without a live container.
    pub open spec fn first_free_slot(&self, s: int) -> bool {
        &&& 0 <= s < NA
        &&& self.attribute_index_allocators@[s] is None
        &&& forall|t: int| 0 <= t < s ==> #[trigger] self.attribute_index_allocators@[t] is Some
    }

    /// This map is `old` with slot `s` reserved for attributes of
    /// `idim`-cells: a fresh allocator there, and the `idim`-cell of each
    /// dart of `reps` in turn given the next index.
    pub open spec fn container_reserved(&self, old: &Self, idim: int, s: int, reps: Seq<DartIndex>) -> bool {
        &&& self.ndims == old.ndims
        &&& self.dart_index_allocator == old.dart_index_allocator
        &&& self.marks@ == old.marks@
        &&& self.attribute_actions@ == old.attribute_actions@
        &&& self.attribute_container_indices@ == old.attribute_container_indices@.insert(idim as usize, s as usize)
        &&& self.attribute_index_allocators@.len() == NA
        &&& forall|t: int| 0 <= t < NA && t != s ==> #[trigger] self.attribute_index_allocators@[t] == old.attribute_index_allocators@[t]
        &&& self.attribute_index_allocators@[s] is Some
        &&& self.attribute_index_allocators@[s].unwrap().count == reps.len()
        &&& self.attribute_index_allocators@[s].unwrap().nodes@.len() == 0
        &&& self.only_slot_changed(old, s)
        &&& forall|d: int| 0 <= d < old.len() ==> #[trigger] self.attr(d, s) == (
            if old.last_cell(reps, idim, d, reps.len() as int) < 0 {
                old.attr(d, s)
            } else {
                AttributeIndex(old.last_cell(reps, idim, d, reps.len() as int) as usize)
            })
    }

    /// Reserves the first free slot for attributes of `idim`-cells and
    /// gives each `idim`-cell a fresh attribute index. `false`, changing
    /// nothing, if `idim` has a slot already, if `NA` dimensions have slots,
    /// or if no slot is free.
    pub fn reserve_attribute_container(&mut self, idim: usize) -> (r: bool)
        requires
            old(self).wf(),
            idim < old(self).ndims,
        ensures
            final(self).wf(),
            r == (old(self).attribute_container_indices@.len() < NA
                && !old(self).attribute_container_indices@.contains_key(idim)
                && exists|s: int| 0 <= s < NA && #[trigger] old(self).attribute_index_allocators@[s] is None),
            !r ==> *final(self) == *old(self),
            r ==> exists|s: int, reps: Seq<DartIndex>| {
                &&& old(self).first_free_slot(s)
                &&& to_ints(reps) == old(self).reps(old(self).all_darts(), seq_without(idim as int, N as int))
                &&& #[trigger] final(self).container_reserved(old(self), idim as int, s, reps)
            },
    {
        if self.attribute_container_indices.len() >= NA {
            return false;
        }
        if self.attribute_container_indices.contains_key(&idim) {
            return false;
        }
        let mut idx: usize = 0;
        while idx < NA && self.attribute_index_allocators[idx].is_some()
            invariant
                self.wf(),
                idx <= NA,
                forall|t: int| 0 <= t < idx ==> #[trigger] self.attribute_index_allocators@[t] is Some,
            decreases NA - idx,
        {
            idx = idx + 1;
        }
        if idx == NA {
            proof {
                assert forall|s: int| 0 <= s < NA implies !(#[trigger] self.attribute_index_allocators@[s] is None) by {}
            }
            return false;
        }
        let ghost o = *old(self);
        let it = self.iter_dart_per_cell(idim);
        let reps = it.items;
        let nreps = reps.len();
        proof {
            assert forall|i: int| 0 <= i < reps@.len() implies (#[trigger] reps@[i]).0 < o.len() by {
                assert(it.items@[i] == reps@[i]);
            }
            assert(to_ints(reps@) == o.reps(o.all_darts(), seq_without(idim as int, N as int)));
        }
        self.attribute_container_indices.insert(idim, idx);
        self.attribute_index_allocators.set(idx, Some(IndexAllocator::new(0)));
        let ghost mid = *self;
        proof {
            assert forall|i: usize| mid.attribute_container_indices@.contains_key(i) implies {
                &&& (#[trigger] mid.attribute_container_indices@[i]) < NA
                &&& i < N
                &&& mid.attribute_index_allocators@[mid.attribute_container_indices@[i] as int] is Some
            } by {
                if i != idim {
                    assert(o.attribute_container_indices@.contains_key(i));
                    assert(o.attribute_index_allocators@[o.attribute_container_indices@[i] as int] is Some);
                }
            }
            assert forall|i1: usize, i2: usize|
                mid.attribute_container_indices@.contains_key(i1) && mid.attribute_container_indices@.contains_key(i2)
                    && #[trigger] mid.attribute_container_indices@[i1] == #[trigger] mid.attribute_container_indices@[i2] implies i1 == i2 by {
                if i1 != idim {
                    assert(o.attribute_index_allocators@[o.attribute_container_indices@[i1] as int] is Some);
                }
                if i2 != idim {
                    assert(o.attribute_index_allocators@[o.attribute_container_indices@[i2] as int] is Some);
                }
            }
            assert forall|d: int, k: int| 0 <= d < mid.len() && 0 <= k < N implies #[trigger] mid.alpha(d, k) < mid.len() by {
                assert(o.alpha(d, k) < o.len());
            }
            assert forall|d: int| 0 <= d < mid.len() implies (#[trigger] mid.darts@[d]).wf() by {
                assert(o.darts@[d].wf());
            }
            assert forall|m: usize| mid.marks@.contains_key(m) implies (#[trigger] mid.marks@[m])@.len() <= mid.len() by {
                assert(o.marks@[m]@.len() <= o.len());
            }
            assert(mid.wf());
            assert(mid.has_container(idim as int));
        }
        self.index_cells(&reps, idim);
        proof {
            assert forall|d: int, k: int| 0 <= d < o.len() && 0 <= k < N implies #[trigger] mid.alpha(d, k) == o.alpha(d, k) by {}
            o.lemma_same_alphas_same_orbits(&mid, seq_without(idim as int, N as int));
            assert forall|t: int| 0 <= t < reps@.len() implies mid.cell((#[trigger] reps@[t]).0 as int, idim as int) == o.cell(reps@[t].0 as int, idim as int) by {
                assert(reps@[t].0 < mid.len());
            }
            lemma_last_cell_same(&mid, &o, reps@, idim as int);
            assert(self.container_reserved(&o, idim as int, idx as int, reps@));
        }
        true
    }


    /// Slot `s` holds the container of some dimension.
    pub open spec fn slot_used(&self, s: int) -> bool {
        exists|k: usize| #[trigger] self.attribute_container_indices@.contains_key(k) && self.attribute_container_indices@[k] == s
    }

    /// This map is `old` with the attribute slots in `slots` released: no
    /// allocator there, and the darts in use (but dart 0) carry the null
    /// index there. Everything else is unchanged but the slot map.
    pub open spec fn slots_released(&self, old: &Self, slots: Set<int>) -> bool {
        &&& self.ndims == old.ndims
        &&& self.dart_index_allocator == old.dart_index_allocator
        &&& self.marks@ == old.marks@
        &&& self.attribute_actions@ == old.attribute_actions@
        &&& self.len() == old.len()
        &&& self.attribute_index_allocators@.len() == NA
        &&& forall|t: int| 0 <= t < NA ==> #[trigger] self.attribute_index_allocators@[t] == (
            if slots.contains(t) { None } else { old.attribute_index_allocators@[t] })
        &&& forall|d: int| 0 <= d < old.len() ==> {
            &&& (#[trigger] self.darts@[d]).init == old.darts@[d].init
            &&& self.darts@[d].alphas@ == old.darts@[d].alphas@
            &&& self.darts@[d].links@ == old.darts@[d].links@
            &&& self.darts@[d].attributes@.len() == NA
        }
        &&& forall|d: int, t: int| 0 <= d < old.len() && 0 <= t < NA ==> #[trigger] self.attr(d, t) == (
            if slots.contains(t) && d >= 1 && old.is_init(d) { AttributeIndex(usize::MAX) } else { old.attr(d, t) })
    }

    /// Releases the container of `idim`, if it has one (see
    /// `slots_released`), and forgets its slot.
    fn release_attribute_container(&mut self, idim: usize)
        requires
            old(self).wf(),
        ensures
            final(self).wf(),
            !old(self).attribute_container_indices@.contains_key(idim) ==> *final(self) == *old(self),
            old(self).attribute_container_indices@.contains_key(idim) ==> {
                &&& final(self).attribute_container_indices@ == old(self).attribute_container_indices@.remove(idim)
                &&& final(self).slots_released(old(self), set![old(self).attribute_container_indices@[idim] as int])
            },
    {
        match self.attribute_container_indices.get(&idim) {
            Some(idx) => {
                let idx = *idx;
                let ghost o = *old(self);
                self.attribute_container_indices.remove(&idim);
                self.attribute_index_allocators.set(idx, None);
                let ghost mid = *self;
                proof {
                    assert forall|i: usize| mid.attribute_container_indices@.contains_key(i) implies {
                        &&& (#[trigger] mid.attribute_container_indices@[i]) < NA
                        &&& i < N
                        &&& mid.attribute_index_allocators@[mid.attribute_container_indices@[i] as int] is Some
                    } by {
                        assert(o.attribute_container_indices@.contains_key(i));
                        assert(o.attribute_container_indices@[i] != idx);
                    }
                    assert forall|d: int, k: int| 0 <= d < mid.len() && 0 <= k < N implies #[trigger] mid.alpha(d, k) < mid.len() by {
                        assert(o.alpha(d, k) < o.len());
                    }
                    assert forall|d: int| 0 <= d < mid.len() implies (#[trigger] mid.darts@[d]).wf() by {
                        assert(o.darts@[d].wf());
                    }
                    assert forall|m: usize| mid.marks@.contains_key(m) implies (#[trigger] mid.marks@[m])@.len() <= mid.len() by {
                        assert(o.marks@[m]@.len() <= o.len());
                    }
                }
                let len = self.darts.len();
                let mut d: usize = 1;
                while d < len
                    invariant
                        self.wf(),
                        mid.wf(),
                        len == self.len() == o.len(),
                        idx < NA,
                        1 <= d <= len,
                        self.ndims == mid.ndims,
                        self.dart_index_allocator == mid.dart_index_allocator,
                        self.marks@ == mid.marks@,
                        self.attribute_actions@ == mid.attribute_actions@,
                        self.attribute_container_indices@ == mid.attribute_container_indices@,
                        self.attribute_index_allocators@ == mid.attribute_index_allocators@,
                        forall|e: int| 0 <= e < len ==> {
                            &&& (#[trigger] self.darts@[e]).init == o.darts@[e].init
                            &&& self.darts@[e].alphas@ == o.darts@[e].alphas@
                            &&& self.darts@[e].links@ == o.darts@[e].links@
                            &&& self.darts@[e].attributes@.len() == NA
                        },
                        forall|e: int, t: int| 0 <= e < len && 0 <= t < NA ==> #[trigger] self.attr(e, t) == (
                            if t == idx && 1 <= e < d && o.is_init(e) { AttributeIndex(usize::MAX) } else { o.attr(e, t) }),
                    decreases len - d,
                {
                    if self.darts[d].init {
                        let ghost before = *self;
                        assert(self.darts@[d as int].wf());
                        self.darts[d].set_attribute_index(AttributeIndex::null(), idx);
                        proof {
                            assert forall|e: int, k: int| 0 <= e < self.len() && 0 <= k < N implies #[trigger] self.alpha(e, k) < self.len() by {
                                assert(before.alpha(e, k) < before.len());
                                if e != d {
                                    assert(self.darts@[e] == before.darts@[e]);
                                }
                            }
                            assert forall|e: int| 0 <= e < self.len() implies (#[trigger] self.darts@[e]).wf() by {
                                assert(before.darts@[e].wf());
                            }
                            assert forall|m: usize| self.marks@.contains_key(m) implies (#[trigger] self.marks@[m])@.len() <= self.len() by {
                                assert(before.marks@[m]@.len() <= before.len());
                            }
                            assert forall|e: int| 0 <= e < len implies {
                                &&& (#[trigger] self.darts@[e]).init == o.darts@[e].init
                                &&& self.darts@[e].alphas@ == o.darts@[e].alphas@
                                &&& self.darts@[e].links@ == o.darts@[e].links@
                                &&& self.darts@[e].attributes@.len() == NA
                            } by {
                                if e != d {
                                    assert(self.darts@[e] == before.darts@[e]);
                                }
                            }
                            assert forall|e: int, t: int| 0 <= e < len && 0 <= t < NA implies #[trigger] self.attr(e, t) == (
                                if t == idx && 1 <= e < d + 1 && o.is_init(e) { AttributeIndex(usize::MAX) } else { o.attr(e, t) }) by {
                                if e != d {
                                    assert(self.darts@[e] == before.darts@[e]);
                                    assert(before.attr(e, t) == (
                                        if t == idx && 1 <= e < d && o.is_init(e) { AttributeIndex(usize::MAX) } else { o.attr(e, t) }));
                                } else {
                                    assert(before.darts@[e].init == o.darts@[e].init);
                                    assert(o.is_init(e));
                                    assert(before.attr(e, t) == o.attr(e, t));
                                    assert(self.darts@[e].attributes@ == before.darts@[e].attributes@.update(idx as int, AttributeIndex(usize::MAX)));
                                }
                            }
                        }
                    }
                    d = d + 1;
                }
                proof {
                    assert(o.attribute_container_indices@[idim] == idx);
                    assert forall|t: int| 0 <= t < NA implies #[trigger] self.attribute_index_allocators@[t] == (
                        if set![idx as int].contains(t) { None } else { o.attribute_index_allocators@[t] }) by {}
                }
            },
            None => {},
        }
    }

    /// Releases the attribute container of `idim`, if it has one: its slot
    /// has no allocator any more, the darts in use carry the null index
    /// there, and `idim` has no slot.
    pub fn free_attribute_container(&mut self, idim: usize)
        requires
            old(self).wf(),
            idim < old(self).ndims,
        ensures
            final(self).wf(),
            !old(self).attribute_container_indices@.contains_key(idim) ==> *final(self) == *old(self),
            old(self).attribute_container_indices@.contains_key(idim) ==> {
                &&& final(self).attribute_container_indices@ == old(self).attribute_container_indices@.remove(idim)
                &&& final(self).slots_released(old(self), set![old(self).attribute_container_indices@[idim] as int])
            },
    {
        self.release_attribute_container(idim);
    }

    /// Releases every attribute container: no dimension has a slot any
    /// more, and every slot that held a container is released (see
    /// `slots_released`).
    pub fn free_attribute_containers(&mut self)
        requires
            old(self).wf(),
        ensures
            final(self).wf(),
            final(self).attribute_container_indices@ == Map::<usize, usize>::empty(),
            final(self).slots_released(old(self), Set::new(|s: int| old(self).slot_used(s))),
    {
        let ghost o = *old(self);
        let mut k: usize = 0;
        proof {
            assert(self.slots_released(&o, Set::new(|s: int| exists|kk: usize| #[trigger] o.attribute_container_indices@.contains_key(kk) && kk < 0 && o.attribute_container_indices@[kk] == s))) by {
                assert forall|t: int| 0 <= t < NA implies #[trigger] self.attribute_index_allocators@[t] == o.attribute_index_allocators@[t] by {}
            }
        }
        while k < N
            invariant
                self.wf(),
                o.wf(),
                k <= N,
                forall|key: usize| #[trigger] self.attribute_container_indices@.contains_key(key) == (o.attribute_container_indices@.contains_key(key) && key >= k),
                forall|key: usize| self.attribute_container_indices@.contains_key(key) ==> #[trigger] self.attribute_container_indices@[key] == o.attribute_container_indices@[key],
                self.slots_released(&o, Set::new(|s: int| exists|kk: usize| #[trigger] o.attribute_container_indices@.contains_key(kk) && kk < k && o.attribute_container_indices@[kk] == s)),
            decreases N - k,
        {
            let ghost pre = *self;
            let ghost done = Set::new(|s: int| exists|kk: usize| #[trigger] o.attribute_container_indices@.contains_key(kk) && kk < k && o.attribute_container_indices@[kk] == s);
            let ghost done1 = Set::new(|s: int| exists|kk: usize| #[trigger] o.attribute_container_indices@.contains_key(kk) && kk < k + 1 && o.attribute_container_indices@[kk] == s);
            self.release_attribute_container(k);
            proof {
                if pre.attribute_container_indices@.contains_key(k) {
                    let s = o.attribute_container_indices@[k] as int;
                    assert(pre.attribute_container_indices@[k] == s);
                    assert forall|x: int| #[trigger] done1.contains(x) <==> (done.contains(x) || x == s) by {
                        if done1.contains(x) {
                            let kk = choose|kk: usize| #[trigger] o.attribute_container_indices@.contains_key(kk) && kk < k + 1 && o.attribute_container_indices@[kk] == x;
                            if kk < k {
                                assert(done.contains(x));
                            }
                        }
                        if x == s {
                            assert(o.attribute_container_indices@.contains_key(k) && k < k + 1 && o.attribute_container_indices@[k] == x);
                        }
                    }
                    assert forall|t: int| 0 <= t < NA implies #[trigger] self.attribute_index_allocators@[t] == (
                        if done1.contains(t) { None } else { o.attribute_index_allocators@[t] }) by {
                        assert(pre.attribute_index_allocators@[t] == (if done.contains(t) { None } else { o.attribute_index_allocators@[t] }));
                    }
                    assert forall|d: int, t: int| 0 <= d < o.len() && 0 <= t < NA implies #[trigger] self.attr(d, t) == (
                        if done1.contains(t) && d >= 1 && o.is_init(d) { AttributeIndex(usize::MAX) } else { o.attr(d, t) }) by {
                        assert(pre.attr(d, t) == (if done.contains(t) && d >= 1 && o.is_init(d) { AttributeIndex(usize::MAX) } else { o.attr(d, t) }));
                        assert(pre.darts@[d].init == o.darts@[d].init);
                    }
                    assert forall|d: int| 0 <= d < o.len() implies {
                        &&& (#[trigger] self.darts@[d]).init == o.darts@[d].init
                        &&& self.darts@[d].alphas@ == o.darts@[d].alphas@
                        &&& self.darts@[d].links@ == o.darts@[d].links@
                        &&& self.darts@[d].attributes@.len() == NA
                    } by {
                        assert(pre.darts@[d].init == o.darts@[d].init);
                    }
                    assert(self.slots_released(&o, done1));
                } else {
                    assert forall|x: int| #[trigger] done1.contains(x) <==> done.contains(x) by {
                        if done1.contains(x) {
                            let kk = choose|kk: usize| #[trigger] o.attribute_container_indices@.contains_key(kk) && kk < k + 1 && o.attribute_container_indices@[kk] == x;
                            if kk < k {
                                assert(done.contains(x));
                            }
                        }
                    }
                    assert(done1 =~= done);
                }
            }
            k = k + 1;
        }
        proof {
            assert forall|key: usize| !#[trigger] self.attribute_container_indices@.contains_key(key) by {
                if o.attribute_container_indices@.contains_key(key) {
                    assert(o.attribute_container_indices@[key] < NA);
                    assert(key < N);
                }
            }
            assert(self.attribute_container_indices@ =~= Map::<usize, usize>::empty());
            let done = Set::new(|s: int| exists|kk: usize| #[trigger] o.attribute_container_indices@.contains_key(kk) && kk < N && o.attribute_container_indices@[kk] == s);
            assert forall|x: int| #[trigger] done.contains(x) <==> o.slot_used(x) by {
                if o.slot_used(x) {
                    let kk = choose|kk: usize| #[trigger] o.attribute_container_indices@.contains_key(kk) && o.attribute_container_indices@[kk] == x;
                    assert(kk < N);
                }
            }
            assert(done =~= Set::new(|s: int| o.slot_used(s)));
        }
    }

    /// The allocator of slot `s` handed out one index since `old`; the
    /// other slots are unchanged.
    pub open spec fn slot_advanced(&self, old: &Self, s: int) -> bool {
        &&& self.attribute_index_allocators@.len() == old.attribute_index_allocators@.len()
        &&& forall|t: int| 0 <= t < old.attribute_index_allocators@.len() && t != s ==> #[trigger] self.attribute_index_allocators@[t] == old.attribute_index_allocators@[t]
        &&& self.attribute_index_allocators@[s] is Some
        &&& self.attribute_index_allocators@[s].unwrap().count == old.attribute_index_allocators@[s].unwrap().count + 1
        &&& self.attribute_index_allocators@[s].unwrap().nodes@ == old.attribute_index_allocators@[s].unwrap().nodes@
    }

    /// The action that removes the attribute of the `idim`-cell of `d`, if
    /// `idim` has a live container.
    pub open spec fn removal(&self, d: int, idim: int) -> Seq<AttributeAction> {
        if self.has_container(idim) {
            seq![AttributeAction::Remove { slot: self.slot_of(idim).unwrap(), index: self.attr_index(d, idim) }]
        } else {
            Seq::empty()
        }
    }

    /// The removal actions for the cells of `d` of dimensions below `k`.
    pub open spec fn removals(&self, d: int, k: int) -> Seq<AttributeAction>
        decreases k,
    {
        if k <= 0 {
            Seq::empty()
        } else {
            self.removals(d, k - 1) + self.removal(d, k - 1)
        }
    }
}

/// Changing only attribute allocators (keeping them well-formed and
/// without freed runs) or the action log keeps a map well-formed.
pub proof fn lemma_wf_same_attributes<const N: usize, const NA: usize, const NL: usize>(a: &NGMap<N, NA, NL>, b: &NGMap<N, NA, NL>)
    requires
        a.wf(),
        b.ndims == a.ndims,
        b.darts@ == a.darts@,
        b.dart_index_allocator == a.dart_index_allocator,
        b.marks@ == a.marks@,
        b.attribute_container_indices@ == a.attribute_container_indices@,
        b.attribute_index_allocators@.len() == NA,
        forall|s: int| 0 <= s < NA ==> (#[trigger] b.attribute_index_allocators@[s] is Some) == (a.attribute_index_allocators@[s] is Some),
        forall|s: int|
            #![trigger b.attribute_index_allocators@[s]]
            0 <= s < NA && b.attribute_index_allocators@[s] is Some ==> {
                &&& b.attribute_index_allocators@[s].unwrap().wf()
                &&& b.attribute_index_allocators@[s].unwrap().nodes@.len() == 0
            },
    ensures
        b.wf(),
{
    assert forall|d: int, k: int| 0 <= d < b.len() && 0 <= k < N implies #[trigger] b.alpha(d, k) < b.len() by {
        assert(a.alpha(d, k) < a.len());
    }
    assert forall|d: int| 0 <= d < b.len() implies (#[trigger] b.darts@[d]).wf() by {
        assert(a.darts@[d].wf());
    }
    assert forall|m: usize| b.marks@.contains_key(m) implies (#[trigger] b.marks@[m])@.len() <= b.len() by {
        assert(a.marks@[m]@.len() <= a.len());
    }
}


/// `last_cell` depends only on the cells of the listed darts.
pub proof fn lemma_last_cell_same<const N: usize, const NA: usize, const NL: usize>(a: &NGMap<N, NA, NL>, b: &NGMap<N, NA, NL>, reps: Seq<DartIndex>, idim: int)
    requires
        forall|t: int| 0 <= t < reps.len() ==> a.cell((#[trigger] reps[t]).0 as int, idim) == b.cell(reps[t].0 as int, idim),
    ensures
        forall|x: int, m: int| 0 <= m <= reps.len() ==> #[trigger] a.last_cell(reps, idim, x, m) == b.last_cell(reps, idim, x, m),
{
    assert forall|x: int, m: int| 0 <= m <= reps.len() implies #[trigger] a.last_cell(reps, idim, x, m) == b.last_cell(reps, idim, x, m) by {
        lemma_last_cell_same_at(a, b, reps, idim, x, m);
    }
}

proof fn lemma_last_cell_same_at<const N: usize, const NA: usize, const NL: usize>(a: &NGMap<N, NA, NL>, b: &NGMap<N, NA, NL>, reps: Seq<DartIndex>, idim: int, x: int, m: int)
    requires
        0 <= m <= reps.len(),
        forall|t: int| 0 <= t < reps.len() ==> a.cell((#[trigger] reps[t]).0 as int, idim) == b.cell(reps[t].0 as int, idim),
    ensures
        a.last_cell(reps, idim, x, m) == b.last_cell(reps, idim, x, m),
    decreases m,
{
    if m > 0 {
        assert(a.cell(reps[m - 1].0 as int, idim) == b.cell(reps[m - 1].0 as int, idim));
        lemma_last_cell_same_at(a, b, reps, idim, x, m - 1);
    }
}

} // verus!
