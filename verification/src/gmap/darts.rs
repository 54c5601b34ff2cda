//! Creation and removal of darts and access to their alpha links. A dart
//! that is not linked by alpha(i) to another dart is alpha(i)-free: its
//! alpha(i) link points to itself.

use vstd::prelude::*;
use crate::index::{DartIndex, AttributeIndex};
use crate::dart::Dart;
use crate::index_allocator::{lemma_reserve_disjoint, lemma_free_disjoint, lemma_free_adds_index};
use crate::orbits::seq_without;
use crate::iterators::{seq_range, ids};
use super::{NGMap, AttributeAction};

verus! {

broadcast use vstd::std_specs::hash::group_hash_axioms;

impl<const N: usize, const NA: usize, const NL: usize> NGMap<N, NA, NL> {
    /// Number of dimensions below `k` whose live attribute container is in
    /// slot `s`.
    pub open spec fn idims_in_slot(&self, s: int, k: int) -> nat
        decreases k,
    {
        if k <= 0 {
            0
        } else {
            self.idims_in_slot(s, k - 1) + (if self.has_container(k - 1) && self.slot_of(k - 1) == Some(s as usize) { 1nat } else { 0nat })
        }
    }

    /// The count of the attribute allocator of slot `s` (0 if the slot is
    /// not live).
    pub open spec fn slot_count(&self, s: int) -> int {
        match self.attribute_index_allocators@[s] {
            Some(a) => a.count as int,
            None => 0,
        }
    }

    /// `true` if `dart` is alpha(`aindex`)-free.
    pub fn is_free(&self, dart: &DartIndex, aindex: usize) -> (r: bool)
        requires
            self.wf(),
            dart.0 < self.len(),
            aindex < N,
        ensures
            r == self.free(dart.0 as int, aindex as int),
    {
        self.darts[dart.0].get_alpha(aindex).0 == dart.0
    }

    /// The dart that alpha(`alpha`) links `dart` to (itself if free).
    pub fn get_alpha(&self, dart: &DartIndex, alpha: usize) -> (r: DartIndex)
        requires
            self.wf(),
            dart.0 < self.len(),
            alpha < N,
        ensures
            r.0 == self.alpha(dart.0 as int, alpha as int),
            r.0 < self.len(),
    {
        assert(self.alpha(dart.0 as int, alpha as int) < self.len());
        self.darts[dart.0].get_alpha(alpha)
    }

    /// The dart that alpha(`alpha`) links `dart` to, or `None` if `dart` is
    /// alpha(`alpha`)-free.
    pub fn get_alpha_if_exists(&self, dart: &DartIndex, alpha: usize) -> (r: Option<DartIndex>)
        requires
            self.wf(),
            dart.0 < self.len(),
            alpha < N,
        ensures
            r == (if self.free(dart.0 as int, alpha as int) { None } else { Some(DartIndex(self.alpha(dart.0 as int, alpha as int) as usize)) }),
    {
        let dart_alpha = self.darts[dart.0].get_alpha(alpha);
        if dart_alpha.0 == dart.0 {
            return None;
        }
        Some(dart_alpha)
    }

    /// Creates a new isolated dart and returns its index: a freed index if
    /// there is one, a new one otherwise. The dart is alpha(i)-free for
    /// every dimension in use and linked to dart 0 above; each live
    /// attribute container gives its cells a new attribute index.
    pub fn create_dart(&mut self) -> (r: DartIndex)
        requires
            old(self).wf(),
            old(self).len() + 1 < usize::MAX,
            old(self).attribute_room(N as int),
        ensures
            final(self).wf(),
            ({
                let (idx, count, nodes) = old(self).dart_index_allocator.spec_reserve();
                &&& r.0 == idx
                &&& 1 <= idx <= old(self).len()
                &&& final(self).len() == (if idx < old(self).len() { old(self).len() } else { old(self).len() + 1 })
                &&& final(self).dart_index_allocator.count == count
                &&& final(self).dart_index_allocator.nodes@ == nodes
            }),
            final(self).darts@[r.0 as int].init,
            forall|k: int| 0 <= k < N ==> #[trigger] final(self).alpha(r.0 as int, k) == (if k < old(self).ndims { r.0 as int } else { 0 }),
            final(self).darts@[r.0 as int].links@ == crate::dart::repeat(r, NL as nat),
            forall|s: int| 0 <= s < NA ==> #[trigger] final(self).attr(r.0 as int, s) == (
                if old(self).slot_live(s) && old(self).idims_in_slot(s, old(self).ndims as int) > 0 {
                    AttributeIndex((old(self).slot_count(s) + old(self).idims_in_slot(s, old(self).ndims as int) - 1) as usize)
                } else {
                    AttributeIndex(usize::MAX)
                }),
            forall|d: int| 0 <= d < old(self).len() && d != r.0 ==> #[trigger] final(self).darts@[d] == old(self).darts@[d],
            final(self).ndims == old(self).ndims,
            final(self).marks@ == old(self).marks@,
            final(self).attribute_container_indices@ == old(self).attribute_container_indices@,
            final(self).attribute_actions@ == old(self).attribute_actions@,
            final(self).attribute_index_allocators@.len() == NA,
            forall|s: int| 0 <= s < NA ==> (#[trigger] final(self).attribute_index_allocators@[s] is Some) == old(self).slot_live(s),
            forall|s: int| 0 <= s < NA ==> #[trigger] final(self).slot_count(s) == old(self).slot_count(s) + (if old(self).slot_live(s) { old(self).idims_in_slot(s, old(self).ndims as int) as int } else { 0 }),
            old(self).free_indices_unused() ==> final(self).free_indices_unused(),
            old(self).free_indices_unused() && r.0 < old(self).len() ==> !old(self).darts@[r.0 as int].init,
            old(self).free_indices_unused() && old(self).involutive() ==> final(self).involutive(),
            old(self).dart_index_allocator.nodes@.len() == 0 ==> r.0 == old(self).len()
                && forall|m: usize| !#[trigger] final(self).marked(m, r.0 as int),
    {
        let ghost o = *old(self);
        let index = self.dart_index_allocator.reserve_index();
        let ndims = self.ndims;
        let dart = Dart::<N, NA, NL>::new_at(index, &ndims);
        if index < self.darts.len() {
            self.darts.set(index, dart);
        } else {
            self.darts.push(dart);
        }
        proof {
            assert forall|d: int, k: int| 0 <= d < self.len() && 0 <= k < N implies #[trigger] self.alpha(d, k) < self.len() by {
                if d != index {
                    assert(o.alpha(d, k) < o.len());
                }
            }
            assert forall|d: int| 0 <= d < self.len() implies (#[trigger] self.darts@[d]).wf() by {
                if d != index {
                    assert(o.darts@[d].wf());
                }
            }
            assert forall|m: usize| self.marks@.contains_key(m) implies (#[trigger] self.marks@[m])@.len() <= self.len() by {
                assert(o.marks@[m]@.len() <= o.len());
            }
            assert forall|s: int| 0 <= s < NA implies #[trigger] o.idims_in_slot(s, 0) == 0 by {}
        }
        let mut idim: usize = 0;
        while idim < ndims
            invariant
                self.wf(),
                ndims == o.ndims,
                ndims <= N,
                idim <= ndims,
                index < self.len(),
                o.attribute_room(N as int),
                self.ndims == o.ndims,
                self.darts@[index as int].init,
                forall|k: int| 0 <= k < N ==> #[trigger] self.alpha(index as int, k) == (if k < ndims { index as int } else { 0 }),
                self.darts@[index as int].links@ == crate::dart::repeat(DartIndex(index), NL as nat),
                forall|d: int| 0 <= d < o.len() && d != index ==> #[trigger] self.darts@[d] == o.darts@[d],
                self.len() == (if index < o.len() { o.len() } else { o.len() + 1 }),
                self.dart_index_allocator.count == o.dart_index_allocator.spec_reserve().1,
                self.dart_index_allocator.nodes@ == o.dart_index_allocator.spec_reserve().2,
                self.marks@ == o.marks@,
                self.attribute_container_indices@ == o.attribute_container_indices@,
                self.attribute_actions@ == o.attribute_actions@,
                self.attribute_index_allocators@.len() == NA,
                forall|s: int| 0 <= s < NA ==> (#[trigger] self.attribute_index_allocators@[s] is Some) == o.slot_live(s),
                forall|s: int| 0 <= s < NA ==> #[trigger] self.slot_count(s) == o.slot_count(s) + (if o.slot_live(s) { o.idims_in_slot(s, idim as int) as int } else { 0 }),
                forall|s: int| 0 <= s < NA ==> #[trigger] o.idims_in_slot(s, idim as int) <= idim,
                forall|s: int| 0 <= s < NA ==> #[trigger] self.attr(index as int, s) == (
                    if o.slot_live(s) && o.idims_in_slot(s, idim as int) > 0 {
                        AttributeIndex((o.slot_count(s) + o.idims_in_slot(s, idim as int) - 1) as usize)
                    } else {
                        AttributeIndex(usize::MAX)
                    }),
            decreases ndims - idim,
        {
            proof {
                assert(o.has_container(idim as int) == self.has_container(idim as int));
                assert forall|s: int| 0 <= s < NA && self.attribute_index_allocators@[s] is Some implies
                    self.attribute_index_allocators@[s].unwrap().count + 1 <= usize::MAX by {
                    assert(self.slot_count(s) == self.attribute_index_allocators@[s].unwrap().count);
                    assert(o.attribute_index_allocators@[s] is Some);
                    assert(o.slot_count(s) == o.attribute_index_allocators@[s].unwrap().count);
                }
            }
            let ghost before = *self;
            self.give_cell_attribute(index, idim);
            proof {
                assert forall|k: int| 0 <= k < N implies #[trigger] self.alpha(index as int, k) == before.alpha(index as int, k) by {}
                assert(before.slot_of(idim as int) == o.slot_of(idim as int));
                if o.slot_of(idim as int) is Some {
                    let s0 = o.slot_of(idim as int).unwrap() as int;
                    assert(before.attribute_index_allocators@[s0] is Some == o.slot_live(s0));
                }
                assert(before.has_container(idim as int) == o.has_container(idim as int));
                if o.has_container(idim as int) {
                    let s = o.slot_of(idim as int).unwrap() as int;
                    assert(self.slot_count(s) == before.slot_count(s) + 1);
                    assert forall|s2: int| 0 <= s2 < NA implies #[trigger] self.slot_count(s2) == o.slot_count(s2) + (if o.slot_live(s2) { o.idims_in_slot(s2, idim + 1) as int } else { 0 }) by {
                        assert(before.slot_count(s2) == o.slot_count(s2) + (if o.slot_live(s2) { o.idims_in_slot(s2, idim as int) as int } else { 0 }));
                        if s2 != s {
                            assert(self.attribute_index_allocators@[s2] == before.attribute_index_allocators@[s2]);
                            assert(self.slot_count(s2) == before.slot_count(s2));
                            assert(o.idims_in_slot(s2, idim + 1) == o.idims_in_slot(s2, idim as int));
                        } else {
                            assert(o.slot_live(s2));
                            assert(o.idims_in_slot(s2, idim + 1) == o.idims_in_slot(s2, idim as int) + 1);
                        }
                    }
                    assert forall|s2: int| 0 <= s2 < NA implies #[trigger] self.attr(index as int, s2) == (
                        if o.slot_live(s2) && o.idims_in_slot(s2, idim + 1) > 0 {
                            AttributeIndex((o.slot_count(s2) + o.idims_in_slot(s2, idim + 1) - 1) as usize)
                        } else {
                            AttributeIndex(usize::MAX)
                        }) by {
                        assert(before.attr(index as int, s2) == (
                            if o.slot_live(s2) && o.idims_in_slot(s2, idim as int) > 0 {
                                AttributeIndex((o.slot_count(s2) + o.idims_in_slot(s2, idim as int) - 1) as usize)
                            } else {
                                AttributeIndex(usize::MAX)
                            }));
                        assert(before.slot_count(s2) == o.slot_count(s2) + (if o.slot_live(s2) { o.idims_in_slot(s2, idim as int) as int } else { 0 }));
                        if s2 != s {
                            assert(o.idims_in_slot(s2, idim + 1) == o.idims_in_slot(s2, idim as int));
                        } else {
                            assert(o.slot_live(s2));
                            assert(o.idims_in_slot(s2, idim + 1) == o.idims_in_slot(s2, idim as int) + 1);
                        }
                    }
                    assert forall|s2: int| 0 <= s2 < NA implies (#[trigger] self.attribute_index_allocators@[s2] is Some) == o.slot_live(s2) by {
                        if s2 != s {
                            assert(self.attribute_index_allocators@[s2] == before.attribute_index_allocators@[s2]);
                        }
                    }
                } else {
                    assert forall|s2: int| 0 <= s2 < NA implies #[trigger] o.idims_in_slot(s2, idim + 1) == o.idims_in_slot(s2, idim as int) by {}
                    assert forall|s2: int| 0 <= s2 < NA implies #[trigger] self.slot_count(s2) == o.slot_count(s2) + (if o.slot_live(s2) { o.idims_in_slot(s2, idim + 1) as int } else { 0 }) by {
                        assert(before.slot_count(s2) == o.slot_count(s2) + (if o.slot_live(s2) { o.idims_in_slot(s2, idim as int) as int } else { 0 }));
                        assert(o.idims_in_slot(s2, idim + 1) == o.idims_in_slot(s2, idim as int));
                    }
                    assert forall|s2: int| 0 <= s2 < NA implies #[trigger] self.attr(index as int, s2) == (
                        if o.slot_live(s2) && o.idims_in_slot(s2, idim + 1) > 0 {
                            AttributeIndex((o.slot_count(s2) + o.idims_in_slot(s2, idim + 1) - 1) as usize)
                        } else {
                            AttributeIndex(usize::MAX)
                        }) by {
                        assert(before.attr(index as int, s2) == (
                            if o.slot_live(s2) && o.idims_in_slot(s2, idim as int) > 0 {
                                AttributeIndex((o.slot_count(s2) + o.idims_in_slot(s2, idim as int) - 1) as usize)
                            } else {
                                AttributeIndex(usize::MAX)
                            }));
                        assert(o.idims_in_slot(s2, idim + 1) == o.idims_in_slot(s2, idim as int));
                    }
                }
                assert forall|s2: int| 0 <= s2 < NA implies #[trigger] o.idims_in_slot(s2, idim + 1) <= idim + 1 by {
                    assert(o.idims_in_slot(s2, idim as int) <= idim);
                }
            }
            idim = idim + 1;
        }
        proof {
            if o.free_indices_unused() {
                let nodes = o.dart_index_allocator.nodes@;
                lemma_reserve_disjoint(o.dart_index_allocator.count, nodes);
                if nodes.len() > 0 {
                    assert(o.dart_index_allocator.free_set().contains(index as int));
                }
                if o.involutive() {
                    assert forall|d: int, k: int| 0 <= d < self.len() && self.is_init(d) && 0 <= k < self.ndims implies {
                        let e = #[trigger] self.alpha(d, k);
                        &&& 0 <= e < self.len()
                        &&& self.is_init(e)
                        &&& self.alpha(e, k) == d
                    } by {
                        if d != index {
                            assert(self.darts@[d] == o.darts@[d]);
                            let e = o.alpha(d, k);
                            assert(o.is_init(e));
                            assert(e != index);
                            assert(self.darts@[e] == o.darts@[e]);
                        }
                    }
                }
                assert forall|k: int| #[trigger] self.dart_index_allocator.free_set().contains(k) implies !self.darts@[k].init by {
                    assert(o.dart_index_allocator.free_set().contains(k));
                    let j = choose|j: int| 0 <= j < nodes.len() && #[trigger] nodes[j].holds(k);
                    assert(nodes[j].end() <= o.len());
                    assert(k != index);
                    assert(self.darts@[k] == o.darts@[k]);
                }
            }
        }
        DartIndex(index)
    }

    /// Gives dart `index` (alone in its cells) a fresh attribute index for
    /// its `idim`-cell, if `idim` has a live attribute container.
    fn give_cell_attribute(&mut self, index: usize, idim: usize)
        requires
            old(self).wf(),
            index < old(self).len(),
            old(self).attribute_room(1),
        ensures
            final(self).wf(),
            final(self).len() == old(self).len(),
            forall|d: int| 0 <= d < old(self).len() && d != index ==> #[trigger] final(self).darts@[d] == old(self).darts@[d],
            final(self).darts@[index as int].init == old(self).darts@[index as int].init,
            final(self).darts@[index as int].alphas@ == old(self).darts@[index as int].alphas@,
            final(self).darts@[index as int].links@ == old(self).darts@[index as int].links@,
            final(self).ndims == old(self).ndims,
            final(self).dart_index_allocator == old(self).dart_index_allocator,
            final(self).marks@ == old(self).marks@,
            final(self).attribute_container_indices@ == old(self).attribute_container_indices@,
            final(self).attribute_actions@ == old(self).attribute_actions@,
            !old(self).has_container(idim as int) ==> {
                &&& final(self).attribute_index_allocators@ == old(self).attribute_index_allocators@
                &&& final(self).darts@[index as int].attributes@ == old(self).darts@[index as int].attributes@
            },
            old(self).has_container(idim as int) ==> {
                let s = old(self).slot_of(idim as int).unwrap() as int;
                &&& final(self).slot_advanced(old(self), s)
                &&& final(self).darts@[index as int].attributes@ == old(self).darts@[index as int].attributes@.update(s, AttributeIndex(old(self).slot_count(s) as usize))
            },
    {
        let ghost before = *self;
        match self.reserve_attribute_index(idim) {
            Some(idx) => {
                let s = *self.attribute_container_indices.get(&idim).unwrap();
                assert(self.darts@[index as int].wf());
                let ghost mid = *self;
                self.darts[index].set_attribute_index(idx, s);
                proof {
                    assert forall|d: int, k: int| 0 <= d < self.len() && 0 <= k < N implies #[trigger] self.alpha(d, k) < self.len() by {
                        assert(mid.alpha(d, k) < mid.len());
                    }
                    assert forall|d: int| 0 <= d < self.len() implies (#[trigger] self.darts@[d]).wf() by {
                        assert(mid.darts@[d].wf());
                    }
                    assert forall|m: usize| self.marks@.contains_key(m) implies (#[trigger] self.marks@[m])@.len() <= self.len() by {
                        assert(mid.marks@[m]@.len() <= mid.len());
                    }
                }
            },
            None => {},
        }
    }

    /// Removes `dart` if it is isolated (alpha(i)-free for every `i` below
    /// the dimension) and not dart 0: its attributes are dropped, it stops
    /// being in use and its index is handed back to the allocator.
    /// Returns `true` on removal.
    pub fn remove_isolated_dart(&mut self, dart: DartIndex) -> (r: bool)
        requires
            old(self).wf(),
            dart.0 < old(self).len(),
        ensures
            final(self).wf(),
            r == (dart.0 != 0 && forall|k: int| 0 <= k < old(self).ndims ==> #[trigger] old(self).free(dart.0 as int, k)),
            !r ==> *final(self) == *old(self),
            r ==> {
                &&& final(self).len() == old(self).len()
                &&& !final(self).darts@[dart.0 as int].init
                &&& final(self).darts@[dart.0 as int].alphas@ == old(self).darts@[dart.0 as int].alphas@
                &&& final(self).darts@[dart.0 as int].attributes@ == old(self).darts@[dart.0 as int].attributes@
                &&& final(self).darts@[dart.0 as int].links@ == old(self).darts@[dart.0 as int].links@
                &&& forall|d: int| 0 <= d < old(self).len() && d != dart.0 ==> #[trigger] final(self).darts@[d] == old(self).darts@[d]
                &&& final(self).dart_index_allocator.count == old(self).dart_index_allocator.count
                &&& final(self).dart_index_allocator.nodes@ == old(self).dart_index_allocator.spec_free(dart.0).1
                &&& final(self).ndims == old(self).ndims
                &&& final(self).marks@ == old(self).marks@
                &&& final(self).attribute_container_indices@ == old(self).attribute_container_indices@
                &&& final(self).attribute_index_allocators@ == old(self).attribute_index_allocators@
                &&& final(self).attribute_actions@ == old(self).attribute_actions@ + old(self).removals(dart.0 as int, N as int)
            },
            old(self).free_indices_unused() && old(self).darts@[dart.0 as int].init ==> final(self).free_indices_unused(),
            old(self).involutive() ==> final(self).involutive(),
    {
        if dart.0 == 0 {
            return false;
        }
        let mut k: usize = 0;
        while k < self.ndims
            invariant
                self.wf(),
                *self == *old(self),
                dart.0 < self.len(),
                k <= self.ndims,
                forall|j: int| 0 <= j < k ==> #[trigger] old(self).free(dart.0 as int, j),
            decreases self.ndims - k,
        {
            if !self.is_free(&dart, k) {
                return false;
            }
            k = k + 1;
        }
        let ghost o = *old(self);
        let mut idim: usize = 0;
        proof {
            assert(o.removals(dart.0 as int, 0) =~= Seq::<AttributeAction>::empty());
            assert(self.attribute_actions@ =~= o.attribute_actions@ + o.removals(dart.0 as int, 0));
        }
        while idim < N
            invariant
                self.wf(),
                dart.0 < self.len(),
                idim <= N,
                self.ndims == o.ndims,
                self.darts@ == o.darts@,
                self.dart_index_allocator == o.dart_index_allocator,
                self.marks@ == o.marks@,
                self.attribute_container_indices@ == o.attribute_container_indices@,
                self.attribute_index_allocators@ == o.attribute_index_allocators@,
                self.attribute_actions@ == o.attribute_actions@ + o.removals(dart.0 as int, idim as int),
            decreases N - idim,
        {
            self.remove_attribute_from_dart(&dart, idim);
            proof {
                assert(self.removal(dart.0 as int, idim as int) == o.removal(dart.0 as int, idim as int));
                assert(self.attribute_actions@ =~= o.attribute_actions@ + o.removals(dart.0 as int, idim + 1));
            }
            idim = idim + 1;
        }
        let ghost before = *self;
        self.darts[dart.0].set_init(false);
        let ok = self.dart_index_allocator.free_index(dart.0);
        proof {
            assert forall|d: int, k: int| 0 <= d < self.len() && 0 <= k < N implies #[trigger] self.alpha(d, k) < self.len() by {
                assert(before.alpha(d, k) < before.len());
            }
            assert forall|d: int| 0 <= d < self.len() implies (#[trigger] self.darts@[d]).wf() by {
                assert(before.darts@[d].wf());
            }
            assert forall|m: usize| self.marks@.contains_key(m) implies (#[trigger] self.marks@[m])@.len() <= self.len() by {
                assert(before.marks@[m]@.len() <= before.len());
            }
            let nodes0 = before.dart_index_allocator.nodes@;
            let nodes1 = self.dart_index_allocator.nodes@;
            assert forall|j: int| 0 <= j < nodes1.len() implies {
                &&& 1 <= (#[trigger] nodes1[j]).start
                &&& nodes1[j].end() <= self.len()
            } by {
                lemma_runs_in_range(before.dart_index_allocator.count, nodes0, dart.0, self.len(), j);
            }
            if o.involutive() {
                assert forall|d: int, k: int| 0 <= d < self.len() && self.is_init(d) && 0 <= k < self.ndims implies {
                    let e = #[trigger] self.alpha(d, k);
                    &&& 0 <= e < self.len()
                    &&& self.is_init(e)
                    &&& self.alpha(e, k) == d
                } by {
                    assert(d != dart.0);
                    assert(self.darts@[d] == o.darts@[d]);
                    let e = o.alpha(d, k);
                    assert(o.is_init(e) && o.alpha(e, k) == d);
                    if e == dart.0 {
                        assert(o.free(e, k));
                    }
                    assert(self.darts@[e] == o.darts@[e]);
                }
            }
            if o.free_indices_unused() && o.darts@[dart.0 as int].init {
                assert(!before.dart_index_allocator.free_set().contains(dart.0 as int));
                lemma_free_disjoint(before.dart_index_allocator.count, nodes0, dart.0);
                lemma_free_adds_index(before.dart_index_allocator.count, nodes0, dart.0);
                assert forall|k: int| #[trigger] self.dart_index_allocator.free_set().contains(k) implies !self.darts@[k].init by {
                    if k != dart.0 {
                        assert(before.dart_index_allocator.free_set().contains(k));
                        let j = choose|j: int| 0 <= j < nodes0.len() && #[trigger] nodes0[j].holds(k);
                        assert(nodes0[j].end() <= before.len());
                        assert(self.darts@[k] == o.darts@[k]);
                    }
                }
            }
        }
        true
    }

    /// `true` if `dart1` and `dart2` lie in the same `idim`-cell (the
    /// `idim`-cell of `dart1` holds `dart2`).
    pub fn darts_in_same_cell(&self, dart1: &DartIndex, dart2: &DartIndex, idim: usize) -> (r: bool)
        requires
            self.wf(),
            dart1.0 < self.len(),
            idim < N,
        ensures
            r == (dart1.0 == dart2.0 || self.orbit_set(dart1.0 as int, seq_without(idim as int, N as int)).contains(dart2.0 as int)),
    {
        if dart1.0 == dart2.0 {
            return true;
        }
        let darts = self.iter_darts_in_cell(*dart1, idim).items;
        proof {
            self.lemma_orbit_ids(dart1.0 as int, seq_without(idim as int, N as int), darts@);
        }
        let mut k: usize = 0;
        while k < darts.len()
            invariant
                k <= darts@.len(),
                ids(darts@) == self.orbit_set(dart1.0 as int, seq_without(idim as int, N as int)),
                forall|i: int| 0 <= i < k ==> (#[trigger] darts@[i]).0 != dart2.0,
            decreases darts@.len() - k,
        {
            if darts[k].0 == dart2.0 {
                assert(ids(darts@).contains(dart2.0 as int));
                return true;
            }
            k = k + 1;
        }
        proof {
            if ids(darts@).contains(dart2.0 as int) {
                let i = choose|i: int| 0 <= i < darts@.len() && (#[trigger] darts@[i]).0 == dart2.0;
                assert(darts@[i].0 != dart2.0);
            }
        }
        false
    }

    /// `true` if `dart1` and `dart2` lie in the same connected component.
    pub fn darts_connected(&self, dart1: &DartIndex, dart2: &DartIndex) -> (r: bool)
        requires
            self.wf(),
            dart1.0 < self.len(),
        ensures
            r == (dart1.0 == dart2.0 || self.orbit_set(dart1.0 as int, seq_range(N as int)).contains(dart2.0 as int)),
    {
        if dart1.0 == dart2.0 {
            return true;
        }
        let darts = self.iter_darts_in_component(*dart1).items;
        proof {
            self.lemma_orbit_ids(dart1.0 as int, seq_range(N as int), darts@);
        }
        let mut k: usize = 0;
        while k < darts.len()
            invariant
                k <= darts@.len(),
                ids(darts@) == self.orbit_set(dart1.0 as int, seq_range(N as int)),
                forall|i: int| 0 <= i < k ==> (#[trigger] darts@[i]).0 != dart2.0,
            decreases darts@.len() - k,
        {
            if darts[k].0 == dart2.0 {
                assert(ids(darts@).contains(dart2.0 as int));
                return true;
            }
            k = k + 1;
        }
        proof {
            if ids(darts@).contains(dart2.0 as int) {
                let i = choose|i: int| 0 <= i < darts@.len() && (#[trigger] darts@[i]).0 == dart2.0;
                assert(darts@[i].0 != dart2.0);
            }
        }
        false
    }
}

/// Freeing an index in `1..len` keeps all runs within `1..len`.
proof fn lemma_runs_in_range(count: usize, nodes: Seq<crate::index_allocator::AllocationNode>, index: usize, len: int, j: int)
    requires
        1 <= index < len,
        forall|i: int| 0 <= i < nodes.len() ==> 1 <= (#[trigger] nodes[i]).start && nodes[i].end() <= len,
        0 <= j < crate::index_allocator::free_spec(count, nodes, index).1.len(),
    ensures
        1 <= crate::index_allocator::free_spec(count, nodes, index).1[j].start,
        crate::index_allocator::free_spec(count, nodes, index).1[j].end() <= len,
{
    let after = crate::index_allocator::free_spec(count, nodes, index).1;
    if nodes.len() > 0 && exists|m: int| crate::index_allocator::first_stop(count, nodes, index as int, m) {
        let m = choose|m: int| crate::index_allocator::first_stop(count, nodes, index as int, m);
        if nodes[m].touches(index as int) {
            if index == nodes[m].end() {
                if j != m {
                    assert(after[j] == nodes[j]);
                }
            }
        } else if m == 0 && index > nodes[0].end() {
            if j < nodes.len() {
                assert(after[j] == nodes[j]);
            }
        } else {
            if j > 0 {
                assert(after[j] == nodes[j - 1]);
            }
        }
    }
}

impl<const N: usize, const NA: usize, const NL: usize> NGMap<N, NA, NL> {
    /// Relinking darts keeps the freed dart indices out of use: a map with
    /// the allocator, the slots and the in-use flags of `self` has its freed
    /// indices out of use when `self` has.
    pub proof fn lemma_relinked_keeps_free_indices_unused(&self, other: &Self)
        requires
            self.wf(),
            self.free_indices_unused(),
            other.dart_index_allocator == self.dart_index_allocator,
            other.len() == self.len(),
            forall|d: int| 0 <= d < self.len() ==> (#[trigger] other.darts@[d]).init == self.darts@[d].init,
        ensures
            other.free_indices_unused(),
    {
        assert forall|k: int| #[trigger] other.dart_index_allocator.free_set().contains(k) implies !other.darts@[k].init by {
            let nodes = self.dart_index_allocator.nodes@;
            let j = choose|j: int| 0 <= j < nodes.len() && #[trigger] nodes[j].holds(k);
            assert(nodes[j].end() <= self.len());
            assert(self.dart_index_allocator.free_set().contains(k));
        }
    }
}

} // verus!
