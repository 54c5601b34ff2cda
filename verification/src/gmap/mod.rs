//! Generalized map: darts connected by alpha links describing a subdivision
//! of an n-dimensional object into cells (vertices, edges, faces, volumes,
//! ...). Each i-cell is the orbit of a dart under all alpha links except
//! alpha(i). Attribute indices are kept per dart and per attribute slot; the
//! attribute values themselves are stored outside the map, and the map
//! records in `attribute_actions` what has to happen to them.

use vstd::prelude::*;
use std::collections::HashMap;
use crate::dart::{Dart, repeat};
use crate::index::{DartIndex, AttributeIndex};
use crate::index_allocator::{IndexAllocator, runs_disjoint};
use crate::orbits::seq_without;

pub mod darts;
pub mod marks;
pub mod links;
pub mod attributes;
pub mod sew;
pub mod iso;
pub mod relink;
pub mod chamfer_laws;
pub mod cell_laws;
pub mod extrude_laws;
pub mod remove;
pub mod contract;
pub mod extrude;
pub mod copy;
pub mod chamfer;
pub mod stats;
pub mod insert;
pub mod close_boundary;
pub mod shapes;

verus! {

broadcast use vstd::std_specs::hash::group_hash_axioms;

/// What has to happen to stored attribute values after a map operation.
#[derive(Clone, Copy, PartialEq, Eq, Structural, Debug)]
pub enum AttributeAction {
    /// The values under `old0` and `old1` of the container in `slot` merge
    /// into one value under `new`.
    Merge { slot: usize, old0: AttributeIndex, old1: AttributeIndex, new: AttributeIndex },
    /// The value under `old` of the container in `slot` splits into two
    /// values under `new0` and `new1`.
    Split { slot: usize, old: AttributeIndex, new0: AttributeIndex, new1: AttributeIndex },
    /// The value under `index` of the container in `slot` is removed.
    Remove { slot: usize, index: AttributeIndex },
    /// After copying another map into this one: if the container of
    /// `idim`-cells holds no value under `index` while the container of
    /// `idim`-cells of the other map holds one under `index_other`, a clone
    /// of that value is stored under `index`.
    Copy { idim: usize, index: AttributeIndex, index_other: AttributeIndex },
}

/// Generalized map in at most `N` dimensions, with `NA` attribute slots and
/// `NL` weak links per dart. Dart 0 is a placeholder that no traversal
/// enters.
pub struct NGMap<const N: usize, const NA: usize, const NL: usize> {
    pub ndims: usize,
    pub darts: Vec<Dart<N, NA, NL>>,
    pub dart_index_allocator: IndexAllocator,
    pub marks: HashMap<usize, Vec<bool>>,
    pub attribute_container_indices: HashMap<usize, usize>,
    pub attribute_index_allocators: Vec<Option<IndexAllocator>>,
    pub attribute_actions: Vec<AttributeAction>,
}

impl<const N: usize, const NA: usize, const NL: usize> NGMap<N, NA, NL> {
    /// Number of dart slots (darts in use and removed ones).
    pub open spec fn len(&self) -> int {
        self.darts@.len() as int
    }

    /// alpha(`k`) of dart `d`.
    pub open spec fn alpha(&self, d: int, k: int) -> int {
        self.darts@[d].alphas@[k].0 as int
    }

    /// Dart `d` is in use.
    pub open spec fn is_init(&self, d: int) -> bool {
        self.darts@[d].init
    }

    /// Dart `d` is alpha(`k`)-free (linked to itself).
    pub open spec fn free(&self, d: int, k: int) -> bool {
        self.alpha(d, k) == d
    }

    /// Attribute index of dart `d` in slot `s`.
    pub open spec fn attr(&self, d: int, s: int) -> AttributeIndex {
        self.darts@[d].attributes@[s]
    }

    /// The slot of the attribute container for `idim`-cells, if one was
    /// reserved.
    pub open spec fn slot_of(&self, idim: int) -> Option<usize> {
        if idim >= 0 && self.attribute_container_indices@.contains_key(idim as usize) {
            Some(self.attribute_container_indices@[idim as usize])
        } else {
            None
        }
    }

    /// The slot holds a live attribute container.
    pub open spec fn slot_live(&self, s: int) -> bool {
        0 <= s < NA && self.attribute_index_allocators@[s] is Some
    }

    /// `idim` has a live attribute container.
    pub open spec fn has_container(&self, idim: int) -> bool {
        self.slot_of(idim) is Some && self.slot_live(self.slot_of(idim).unwrap() as int)
    }

    /// Every live attribute allocator can hand out `k` more indices.
    pub open spec fn attribute_room(&self, k: int) -> bool {
        forall|s: int|
            #![trigger self.attribute_index_allocators@[s]]
            0 <= s < NA && self.attribute_index_allocators@[s] is Some ==> self.attribute_index_allocators@[s].unwrap().count + k <= usize::MAX
    }

    /// The dart `d` is marked with mark `m`.
    pub open spec fn marked(&self, m: usize, d: int) -> bool {
        &&& self.marks@.contains_key(m)
        &&& 0 <= d < self.marks@[m]@.len()
        &&& self.marks@[m]@[d]
    }

    /// Everything but the darts: allocator, marks and attribute bookkeeping.
    pub open spec fn wf_books(&self) -> bool {
        &&& self.dart_index_allocator.wf()
        &&& self.dart_index_allocator.count == self.len()
        &&& forall|j: int|
            0 <= j < self.dart_index_allocator.nodes@.len() ==> {
                &&& 1 <= (#[trigger] self.dart_index_allocator.nodes@[j]).start
                &&& self.dart_index_allocator.nodes@[j].end() <= self.len()
            }
        &&& forall|m: usize| self.marks@.contains_key(m) ==> (#[trigger] self.marks@[m])@.len() <= self.len()
        &&& self.attribute_index_allocators@.len() == NA
        &&& forall|i: usize|
            self.attribute_container_indices@.contains_key(i) ==> {
                &&& (#[trigger] self.attribute_container_indices@[i]) < NA
                &&& i < N
                &&& self.attribute_index_allocators@[self.attribute_container_indices@[i] as int] is Some
            }
        &&& forall|i1: usize, i2: usize|
            self.attribute_container_indices@.contains_key(i1) && self.attribute_container_indices@.contains_key(i2)
                && #[trigger] self.attribute_container_indices@[i1] == #[trigger] self.attribute_container_indices@[i2] ==> i1 == i2
        &&& forall|s: int|
            #![trigger self.attribute_index_allocators@[s]]
            0 <= s < NA && self.attribute_index_allocators@[s] is Some ==> {
                &&& self.attribute_index_allocators@[s].unwrap().wf()
                &&& self.attribute_index_allocators@[s].unwrap().nodes@.len() == 0
            }
    }

    /// The darts have the right shape and every alpha link points to a dart
    /// slot of the map.
    pub open spec fn wf_darts(&self) -> bool {
        &&& 1 <= self.len() < usize::MAX
        &&& self.ndims <= N
        &&& N + 2 <= usize::MAX
        &&& forall|d: int| 0 <= d < self.len() ==> (#[trigger] self.darts@[d]).wf()
        &&& forall|d: int, k: int| 0 <= d < self.len() && 0 <= k < N ==> #[trigger] self.alpha(d, k) < self.len()
    }

    /// Well-formedness of the map.
    pub open spec fn wf(&self) -> bool {
        &&& self.wf_darts()
        &&& self.wf_books()
    }

    /// The alpha links are involutions: each link below the dimension of a
    /// dart in use leads to a dart in use whose same link leads back.
    pub open spec fn involutive(&self) -> bool {
        forall|d: int, k: int| 0 <= d < self.len() && self.is_init(d) && 0 <= k < self.ndims ==> {
            let e = #[trigger] self.alpha(d, k);
            &&& 0 <= e < self.len()
            &&& self.is_init(e)
            &&& self.alpha(e, k) == d
        }
    }

    /// Every dart index waiting among the allocator's freed runs is out of
    /// use, and no index waits in two runs. A new map has this; creating
    /// darts, relinking them and the shapes keep it, and so does removing a
    /// dart in use, while removing a dart already out of use can break it.
    pub open spec fn free_indices_unused(&self) -> bool {
        &&& forall|k: int| #[trigger] self.dart_index_allocator.free_set().contains(k) ==> !self.darts@[k].init
        &&& runs_disjoint(self.dart_index_allocator.nodes@)
    }

    /// Dart `d` has the same state here as in `other`.
    pub open spec fn dart_unchanged(&self, other: &Self, d: int) -> bool {
        &&& self.darts@[d].init == other.darts@[d].init
        &&& self.darts@[d].alphas@ == other.darts@[d].alphas@
        &&& self.darts@[d].attributes@ == other.darts@[d].attributes@
        &&& self.darts@[d].links@ == other.darts@[d].links@
    }

    /// `other` has the same darts, allocator, marks and attribute books as
    /// this map except for the dart vector.
    pub open spec fn same_books(&self, other: &Self) -> bool {
        &&& other.ndims == self.ndims
        &&& other.dart_index_allocator == self.dart_index_allocator
        &&& other.marks@ == self.marks@
        &&& other.attribute_container_indices@ == self.attribute_container_indices@
        &&& other.attribute_index_allocators@ == self.attribute_index_allocators@
        &&& other.attribute_actions@ == self.attribute_actions@
    }

    /// Initializes an empty generalized map of dimension `ndims`: only the
    /// placeholder dart 0 exists.
    pub fn new(ndims: usize) -> (r: Self)
        requires
            ndims <= N,
            N + 2 <= usize::MAX,
        ensures
            r.wf(),
            r.ndims == ndims,
            r.len() == 1,
            r.darts@[0].init,
            r.free_indices_unused(),
            r.involutive(),
            forall|k: int| 0 <= k < N ==> #[trigger] r.alpha(0, k) == 0,
            r.dart_index_allocator.nodes@.len() == 0,
            r.marks@ == Map::<usize, Vec<bool>>::empty(),
            r.attribute_container_indices@ == Map::<usize, usize>::empty(),
            r.attribute_index_allocators@ == repeat(None::<IndexAllocator>, NA as nat),
            r.attribute_actions@.len() == 0,
    {
        let d0 = Dart::<N, NA, NL>::new_at(0, &1);
        let mut darts: Vec<Dart<N, NA, NL>> = Vec::new();
        darts.push(d0);
        let mut allocators: Vec<Option<IndexAllocator>> = Vec::new();
        let mut k: usize = 0;
        while k < NA
            invariant
                k <= NA,
                allocators@ == repeat(None::<IndexAllocator>, k as nat),
            decreases NA - k,
        {
            allocators.push(None);
            k = k + 1;
            assert(allocators@ =~= repeat(None::<IndexAllocator>, k as nat));
        }
        let r = NGMap {
            ndims: ndims,
            darts: darts,
            dart_index_allocator: IndexAllocator::new(1),
            marks: HashMap::new(),
            attribute_container_indices: HashMap::new(),
            attribute_index_allocators: allocators,
            attribute_actions: Vec::new(),
        };
        assert(r.alpha(0, 0) == 0 || N == 0);
        r
    }

    /// Takes the attribute actions recorded so far, leaving none.
    pub fn take_attribute_actions(&mut self) -> (r: Vec<AttributeAction>)
        ensures
            r@ == old(self).attribute_actions@,
            final(self).attribute_actions@.len() == 0,
            final(self).ndims == old(self).ndims,
            final(self).darts@ == old(self).darts@,
            final(self).dart_index_allocator == old(self).dart_index_allocator,
            final(self).marks@ == old(self).marks@,
            final(self).attribute_container_indices@ == old(self).attribute_container_indices@,
            final(self).attribute_index_allocators@ == old(self).attribute_index_allocators@,
    {
        let mut r: Vec<AttributeAction> = Vec::new();
        std::mem::swap(&mut r, &mut self.attribute_actions);
        r
    }

    /// The number of dimensions in use.
    pub fn get_ndims(&self) -> (r: usize)
        ensures
            r == self.ndims,
    {
        self.ndims
    }

    /// Changes the number of dimensions in use. Links above the new
    /// dimension are reset to dart 0; links between the old and the new
    /// dimension are made free.
    pub fn change_dim(&mut self, ndims: usize)
        requires
            old(self).wf(),
            ndims <= N,
        ensures
            final(self).wf(),
            final(self).ndims == ndims,
            final(self).len() == old(self).len(),
            forall|d: int| 0 <= d < old(self).len() ==> #[trigger] final(self).darts@[d].init == old(self).darts@[d].init
                && final(self).darts@[d].attributes@ == old(self).darts@[d].attributes@
                && final(self).darts@[d].links@ == old(self).darts@[d].links@,
            forall|d: int, k: int|
                0 <= d < old(self).len() && 0 <= k < N ==> #[trigger] final(self).alpha(d, k) == (
                    if d >= 1 && ndims <= k < old(self).ndims {
                        0
                    } else if d >= 1 && old(self).ndims <= k < ndims {
                        d
                    } else {
                        old(self).alpha(d, k)
                    }),
            final(self).dart_index_allocator == old(self).dart_index_allocator,
            final(self).marks@ == old(self).marks@,
            final(self).attribute_container_indices@ == old(self).attribute_container_indices@,
            final(self).attribute_index_allocators@ == old(self).attribute_index_allocators@,
            final(self).attribute_actions@ == old(self).attribute_actions@,
    {
        let len = self.darts.len();
        let old_ndims = self.ndims;
        let mut di: usize = 1;
        while di < len
            invariant
                1 <= di <= len,
                len == self.len() == old(self).len(),
                old_ndims == old(self).ndims,
                ndims <= N,
                self.wf(),
                self.ndims == old(self).ndims,
                self.same_books(old(self)),
                forall|d: int| 0 <= d < len ==> #[trigger] self.darts@[d].init == old(self).darts@[d].init
                    && self.darts@[d].attributes@ == old(self).darts@[d].attributes@
                    && self.darts@[d].links@ == old(self).darts@[d].links@,
                forall|d: int, k: int|
                    0 <= d < len && 0 <= k < N ==> #[trigger] self.alpha(d, k) == (
                        if 1 <= d < di && ndims <= k < old_ndims {
                            0
                        } else if 1 <= d < di && old_ndims <= k < ndims {
                            d
                        } else {
                            old(self).alpha(d, k)
                        }),
            decreases len - di,
        {
            let mut k: usize = 0;
            while k < N
                invariant
                    1 <= di < len,
                    k <= N,
                    len == self.len() == old(self).len(),
                    old_ndims == old(self).ndims,
                    ndims <= N,
                    self.wf(),
                    self.ndims == old(self).ndims,
                    self.same_books(old(self)),
                    forall|d: int| 0 <= d < len ==> #[trigger] self.darts@[d].init == old(self).darts@[d].init
                        && self.darts@[d].attributes@ == old(self).darts@[d].attributes@
                        && self.darts@[d].links@ == old(self).darts@[d].links@,
                    forall|d: int, kk: int|
                        0 <= d < len && 0 <= kk < N ==> #[trigger] self.alpha(d, kk) == (
                            if (1 <= d < di || (d == di && kk < k)) && ndims <= kk < old_ndims {
                                0
                            } else if (1 <= d < di || (d == di && kk < k)) && old_ndims <= kk < ndims {
                                d
                            } else {
                                old(self).alpha(d, kk)
                            }),
                decreases N - k,
            {
                if ndims <= k && k < old_ndims {
                    self.set_dart_alpha(di, k, DartIndex(0));
                } else if old_ndims <= k && k < ndims {
                    self.set_dart_alpha(di, k, DartIndex(di));
                }
                k = k + 1;
            }
            di = di + 1;
        }
        assert forall|d: int, k: int| 0 <= d < old(self).len() && 0 <= k < N implies #[trigger] self.alpha(d, k) == (
            if d >= 1 && ndims <= k < old(self).ndims {
                0
            } else if d >= 1 && old(self).ndims <= k < ndims {
                d
            } else {
                old(self).alpha(d, k)
            }) by {
            assert(d < di);
        }
        let ghost before = *self;
        self.ndims = ndims;
        proof {
            lemma_wf_same_darts(&before, self);
            assert(self.darts@ == before.darts@);
            assert forall|d: int, k: int| 0 <= d < old(self).len() && 0 <= k < N implies #[trigger] self.alpha(d, k) == before.alpha(d, k) by {
            }
        }
    }


    /// Clears the map: all marks and attribute containers are freed (see
    /// `free_attribute_containers`) and only the placeholder dart 0 is
    /// left, as in a new map; the dart allocator starts again from 1.
    pub fn free_all(&mut self)
        requires
            old(self).wf(),
        ensures
            final(self).wf(),
            final(self).free_indices_unused(),
            final(self).involutive(),
            final(self).len() == 1,
            final(self).darts@[0].init,
            forall|k: int| 0 <= k < N ==> #[trigger] final(self).alpha(0, k) == 0,
            final(self).dart_index_allocator.count == 1,
            final(self).dart_index_allocator.nodes@.len() == 0,
            final(self).ndims == old(self).ndims,
            final(self).marks@ == Map::<usize, Vec<bool>>::empty(),
            final(self).attribute_container_indices@ == Map::<usize, usize>::empty(),
            final(self).attribute_index_allocators@.len() == NA,
            forall|t: int| 0 <= t < NA ==> #[trigger] final(self).attribute_index_allocators@[t] == (
                if old(self).slot_used(t) { None } else { old(self).attribute_index_allocators@[t] }),
            final(self).attribute_actions@ == old(self).attribute_actions@,
    {
        self.free_marks();
        let ghost marked = *self;
        self.free_attribute_containers();
        proof {
            assert forall|t: int| 0 <= t < NA implies #[trigger] marked.slot_used(t) == old(self).slot_used(t) by {}
        }
        let d0 = Dart::<N, NA, NL>::new_at(0, &1);
        let mut darts: Vec<Dart<N, NA, NL>> = Vec::new();
        darts.push(d0);
        self.darts = darts;
        self.dart_index_allocator = IndexAllocator::new(1);
        proof {
            assert(self.alpha(0, 0) == 0 || N == 0);
            assert forall|m: usize| self.marks@.contains_key(m) implies (#[trigger] self.marks@[m])@.len() <= self.len() by {}
        }
    }

    /// The same map with room for `N1` dimensions, `NA1` attribute slots
    /// and `NL1` weak links per dart: every dart's vectors are extended with
    /// index 0, and the added attribute slots hold no container.
    pub fn reallocate<const N1: usize, const NA1: usize, const NL1: usize>(self) -> (r: NGMap<N1, NA1, NL1>)
        requires
            self.wf(),
            N <= N1,
            NA <= NA1,
            NL <= NL1,
            N1 + 2 <= usize::MAX,
        ensures
            r.wf(),
            r.ndims == self.ndims,
            r.len() == self.len(),
            forall|d: int| 0 <= d < self.len() ==> {
                &&& (#[trigger] r.darts@[d]).init == self.darts@[d].init
                &&& r.darts@[d].alphas@ == self.darts@[d].alphas@ + repeat(DartIndex(0), (N1 - N) as nat)
                &&& r.darts@[d].attributes@ == self.darts@[d].attributes@ + repeat(AttributeIndex(0), (NA1 - NA) as nat)
                &&& r.darts@[d].links@ == self.darts@[d].links@ + repeat(DartIndex(0), (NL1 - NL) as nat)
            },
            r.dart_index_allocator == self.dart_index_allocator,
            r.marks@ == self.marks@,
            r.attribute_container_indices@ == self.attribute_container_indices@,
            r.attribute_index_allocators@ == self.attribute_index_allocators@ + repeat(None::<IndexAllocator>, (NA1 - NA) as nat),
            r.attribute_actions@ == self.attribute_actions@,
            self.reallocated_as(&r),
    {
        let ghost o = self;
        let len = self.darts.len();
        let mut old_darts = self.darts;
        let mut rev: Vec<Dart<N1, NA1, NL1>> = Vec::new();
        while old_darts.len() > 0
            invariant
                len == o.darts@.len(),
                old_darts@.len() + rev@.len() == len,
                old_darts@ == o.darts@.take(old_darts@.len() as int),
                forall|d: int| 0 <= d < len ==> (#[trigger] o.darts@[d]).wf(),
                N <= N1,
                NA <= NA1,
                NL <= NL1,
                forall|k: int| 0 <= k < rev@.len() ==> {
                    let d = len - 1 - k;
                    &&& (#[trigger] rev@[k]).wf()
                    &&& rev@[k].init == o.darts@[d].init
                    &&& rev@[k].alphas@ == o.darts@[d].alphas@ + repeat(DartIndex(0), (N1 - N) as nat)
                    &&& rev@[k].attributes@ == o.darts@[d].attributes@ + repeat(AttributeIndex(0), (NA1 - NA) as nat)
                    &&& rev@[k].links@ == o.darts@[d].links@ + repeat(DartIndex(0), (NL1 - NL) as nat)
                },
            decreases old_darts@.len(),
        {
            let ghost before = old_darts@;
            let d = old_darts.pop().unwrap();
            proof {
                assert(d == o.darts@[before.len() - 1]);
                assert(old_darts@ =~= o.darts@.take(old_darts@.len() as int));
            }
            rev.push(d.reallocate::<N1, NA1, NL1>());
        }
        let mut darts: Vec<Dart<N1, NA1, NL1>> = Vec::new();
        while rev.len() > 0
            invariant
                len == o.darts@.len(),
                darts@.len() + rev@.len() == len,
                forall|k: int| 0 <= k < rev@.len() ==> {
                    let d = len - 1 - k;
                    &&& (#[trigger] rev@[k]).wf()
                    &&& rev@[k].init == o.darts@[d].init
                    &&& rev@[k].alphas@ == o.darts@[d].alphas@ + repeat(DartIndex(0), (N1 - N) as nat)
                    &&& rev@[k].attributes@ == o.darts@[d].attributes@ + repeat(AttributeIndex(0), (NA1 - NA) as nat)
                    &&& rev@[k].links@ == o.darts@[d].links@ + repeat(DartIndex(0), (NL1 - NL) as nat)
                },
                forall|d: int| 0 <= d < darts@.len() ==> {
                    &&& (#[trigger] darts@[d]).wf()
                    &&& darts@[d].init == o.darts@[d].init
                    &&& darts@[d].alphas@ == o.darts@[d].alphas@ + repeat(DartIndex(0), (N1 - N) as nat)
                    &&& darts@[d].attributes@ == o.darts@[d].attributes@ + repeat(AttributeIndex(0), (NA1 - NA) as nat)
                    &&& darts@[d].links@ == o.darts@[d].links@ + repeat(DartIndex(0), (NL1 - NL) as nat)
                },
            decreases rev@.len(),
        {
            let ghost k = rev@.len() - 1;
            let d = rev.pop().unwrap();
            proof {
                assert(len - 1 - k == darts@.len());
            }
            darts.push(d);
        }
        let mut allocators = self.attribute_index_allocators;
        let mut k: usize = NA;
        while k < NA1
            invariant
                NA <= k <= NA1,
                allocators@ == o.attribute_index_allocators@ + repeat(None::<IndexAllocator>, (k - NA) as nat),
            decreases NA1 - k,
        {
            allocators.push(None);
            k = k + 1;
            assert(allocators@ =~= o.attribute_index_allocators@ + repeat(None::<IndexAllocator>, (k - NA) as nat));
        }
        let r = NGMap::<N1, NA1, NL1> {
            ndims: self.ndims,
            darts: darts,
            dart_index_allocator: self.dart_index_allocator,
            marks: self.marks,
            attribute_container_indices: self.attribute_container_indices,
            attribute_index_allocators: allocators,
            attribute_actions: self.attribute_actions,
        };
        proof {
            assert forall|d: int, kk: int| 0 <= d < r.len() && 0 <= kk < N1 implies #[trigger] r.alpha(d, kk) < r.len() by {
                if kk < N {
                    assert(r.darts@[d].alphas@[kk] == o.darts@[d].alphas@[kk]);
                    assert(o.alpha(d, kk) < o.len());
                } else {
                    assert(r.darts@[d].alphas@[kk] == DartIndex(0));
                }
            }
            assert forall|i: usize| r.attribute_container_indices@.contains_key(i) implies {
                &&& (#[trigger] r.attribute_container_indices@[i]) < NA1
                &&& i < N1
                &&& r.attribute_index_allocators@[r.attribute_container_indices@[i] as int] is Some
            } by {
                assert(o.attribute_container_indices@[i] < NA);
                assert(r.attribute_index_allocators@[o.attribute_container_indices@[i] as int] == o.attribute_index_allocators@[o.attribute_container_indices@[i] as int]);
            }
            assert forall|s: int|
                #![trigger r.attribute_index_allocators@[s]]
                0 <= s < NA1 && r.attribute_index_allocators@[s] is Some implies {
                    &&& r.attribute_index_allocators@[s].unwrap().wf()
                    &&& r.attribute_index_allocators@[s].unwrap().nodes@.len() == 0
                } by {
                if s < NA {
                    assert(r.attribute_index_allocators@[s] == o.attribute_index_allocators@[s]);
                }
            }
            assert forall|j: int| 0 <= j < r.dart_index_allocator.nodes@.len() implies {
                &&& 1 <= (#[trigger] r.dart_index_allocator.nodes@[j]).start
                &&& r.dart_index_allocator.nodes@[j].end() <= r.len()
            } by {
                assert(o.dart_index_allocator.nodes@[j] == r.dart_index_allocator.nodes@[j]);
            }
        }
        r
    }

    /// Sets alpha(`k`) of dart `d` to `value`, nothing else.
    pub(crate) fn set_dart_alpha(&mut self, d: usize, k: usize, value: DartIndex)
        requires
            old(self).wf(),
            d < old(self).len(),
            k < N,
            value.0 < old(self).len(),
        ensures
            final(self).wf(),
            final(self).same_books(old(self)),
            final(self).len() == old(self).len(),
            forall|e: int| 0 <= e < old(self).len() ==> #[trigger] final(self).darts@[e].init == old(self).darts@[e].init
                && final(self).darts@[e].attributes@ == old(self).darts@[e].attributes@
                && final(self).darts@[e].links@ == old(self).darts@[e].links@,
            forall|e: int, kk: int| 0 <= e < old(self).len() && 0 <= kk < N ==> #[trigger] final(self).alpha(e, kk) == (
                if e == d && kk == k { value.0 as int } else { old(self).alpha(e, kk) }),
    {
        self.darts[d].set_alpha(&value, k);
        assert(self.darts@[d as int].alphas@ == old(self).darts@[d as int].alphas@.update(k as int, value));
        assert forall|e: int, kk: int| 0 <= e < self.len() && 0 <= kk < N implies #[trigger] self.alpha(e, kk) < self.len() by {
            assert(old(self).alpha(e, kk) < old(self).len());
            if e != d {
                assert(self.darts@[e] == old(self).darts@[e]);
            } else if kk != k {
                assert(self.alpha(e, kk) == old(self).alpha(e, kk));
            }
        }
    }
}

/// A map that differs from a well-formed one only in its number of
/// dimensions in use (still at most `N`) is well-formed.
pub proof fn lemma_wf_same_darts<const N: usize, const NA: usize, const NL: usize>(a: &NGMap<N, NA, NL>, b: &NGMap<N, NA, NL>)
    requires
        a.wf(),
        b.ndims <= N,
        b.darts@ == a.darts@,
        b.dart_index_allocator == a.dart_index_allocator,
        b.marks@ == a.marks@,
        b.attribute_container_indices@ == a.attribute_container_indices@,
        b.attribute_index_allocators@ == a.attribute_index_allocators@,
    ensures
        b.wf(),
{
    assert forall|d: int, k: int| 0 <= d < b.len() && 0 <= k < N implies #[trigger] b.alpha(d, k) < b.len() by {
        assert(a.alpha(d, k) < a.len());
    }
    assert forall|d: int| 0 <= d < b.len() implies (#[trigger] b.darts@[d]).wf() by {
        assert(a.darts@[d].wf());
    }
    assert forall|m: usize| b.marks@.contains_key(m) implies (#[trigger] b.marks@[m])@.len() <= b.len() by {
        assert(a.marks@[m]@.len() <= a.len());
    }
}

impl<const N: usize, const NA: usize, const NL: usize> NGMap<N, NA, NL> {
    /// `r` has the darts of this map, in use where they are, with their
    /// alpha links extended by links to dart 0, as `reallocate` leaves them.
    pub open spec fn reallocated_as<const N1: usize, const NA1: usize, const NL1: usize>(&self, r: &NGMap<N1, NA1, NL1>) -> bool {
        &&& N <= N1
        &&& r.len() == self.len()
        &&& forall|d: int| 0 <= d < self.len() ==> {
            &&& (#[trigger] r.darts@[d]).init == self.darts@[d].init
            &&& r.darts@[d].alphas@ == self.darts@[d].alphas@ + repeat(DartIndex(0), (N1 - N) as nat)
        }
    }

    /// Reallocating keeps the darts in use below `n`.
    pub proof fn lemma_reallocated_darts<const N1: usize, const NA1: usize, const NL1: usize>(&self, r: &NGMap<N1, NA1, NL1>, n: int)
        requires
            self.reallocated_as(r),
            n <= self.len(),
        ensures
            r.init_darts_below(n) == self.init_darts_below(n),
        decreases n,
    {
        if n > 1 {
            self.lemma_reallocated_darts(r, n - 1);
            assert(r.darts@[n - 1].init == self.darts@[n - 1].init);
        }
    }

    /// Reallocating keeps every cell of a dart: the cells of `r` for a
    /// dimension below `N` are those of this map.
    pub proof fn lemma_reallocated_cell<const N1: usize, const NA1: usize, const NL1: usize>(&self, r: &NGMap<N1, NA1, NL1>, d: int, idim: int)
        requires
            self.wf(),
            self.reallocated_as(r),
            0 <= d < self.len(),
            0 <= idim < N,
        ensures
            r.orbit_set(d, seq_without(idim, N1 as int)) == self.orbit_set(d, seq_without(idim, N as int)),
    {
        let s_old = seq_without(idim, N as int);
        let s_new = seq_without(idim, N1 as int);
        let len = self.len();
        assert forall|y: int, k: int| 0 <= y < len && 0 <= k < N1 implies
            #[trigger] r.alpha(y, k) == (if k < N { self.alpha(y, k) } else { 0 }) by {
            assert(r.darts@[y].alphas@ == self.darts@[y].alphas@ + repeat(DartIndex(0), (N1 - N) as nat));
            assert(self.darts@[y].wf());
        }
        assert forall|x: int| #[trigger] r.orbit_set(d, s_new).contains(x) <==> self.orbit_set(d, s_old).contains(x) by {
            if self.orbit_set(d, s_old).contains(x) {
                assert forall|s: Set<int>| #[trigger] r.closed_under(s, s_new) && s.contains(d) implies s.contains(x) by {
                    let s2 = Set::new(|y: int| s.contains(y) && 0 <= y < len);
                    assert forall|y: int, j: int| s2.contains(y) && 0 <= j < s_old.len() implies {
                        let z = #[trigger] self.alpha(y, s_old[j] as int);
                        z == y || z == 0 || s2.contains(z)
                    } by {
                        let k = s_old[j] as int;
                        let jj: int = if k < idim { k } else { k - 1 };
                        assert(s_new[jj] as int == k);
                        assert(r.alpha(y, s_new[jj] as int) == self.alpha(y, k));
                        assert(self.alpha(y, k) < len);
                    }
                    assert(self.closed_under(s2, s_old));
                    assert(s2.contains(d));
                }
            }
            if r.orbit_set(d, s_new).contains(x) {
                assert forall|s: Set<int>| #[trigger] self.closed_under(s, s_old) && s.contains(d) implies s.contains(x) by {
                    let s2 = Set::new(|y: int| s.contains(y) && 0 <= y < len);
                    assert forall|y: int, j: int| s2.contains(y) && 0 <= j < s_new.len() implies {
                        let z = #[trigger] r.alpha(y, s_new[j] as int);
                        z == y || z == 0 || s2.contains(z)
                    } by {
                        let k = s_new[j] as int;
                        assert(0 <= k < N1);
                        if k < N {
                            let jj: int = if k < idim { k } else { k - 1 };
                            assert(s_old[jj] as int == k);
                            assert(self.alpha(y, s_old[jj] as int) == r.alpha(y, k));
                            assert(self.alpha(y, k) < len);
                        }
                    }
                    assert(r.closed_under(s2, s_new));
                    assert(s2.contains(d));
                }
            }
        }
        assert(r.orbit_set(d, s_new) =~= self.orbit_set(d, s_old));
    }

    /// Reallocating keeps the darts chosen one per cell from `ds`.
    pub proof fn lemma_reallocated_reps<const N1: usize, const NA1: usize, const NL1: usize>(&self, r: &NGMap<N1, NA1, NL1>, ds: Seq<int>, idim: int)
        requires
            self.wf(),
            self.reallocated_as(r),
            0 <= idim < N,
            forall|i: int| 0 <= i < ds.len() ==> 0 <= #[trigger] ds[i] < self.len(),
        ensures
            r.reps(ds, seq_without(idim, N1 as int)) == self.reps(ds, seq_without(idim, N as int)),
        decreases ds.len(),
    {
        if ds.len() > 0 {
            let pre = ds.drop_last();
            self.lemma_reallocated_reps(r, pre, idim);
            let prev = self.reps(pre, seq_without(idim, N as int));
            self.lemma_reps_one_per_orbit(pre, seq_without(idim, N as int));
            let d = ds.last();
            assert forall|j: int| 0 <= j < prev.len() implies
                #[trigger] r.orbit_set(prev[j], seq_without(idim, N1 as int)) == self.orbit_set(prev[j], seq_without(idim, N as int)) by {
                assert(pre.contains(prev[j]));
                let t = choose|t: int| 0 <= t < pre.len() && pre[t] == prev[j];
                assert(ds[t] == pre[t]);
                self.lemma_reallocated_cell(r, prev[j], idim);
            }
            if r.covered(prev, d, seq_without(idim, N1 as int)) {
                let j = choose|j: int| 0 <= j < prev.len() && #[trigger] r.orbit_set(prev[j], seq_without(idim, N1 as int)).contains(d);
                assert(self.orbit_set(prev[j], seq_without(idim, N as int)).contains(d));
            }
            if self.covered(prev, d, seq_without(idim, N as int)) {
                let j = choose|j: int| 0 <= j < prev.len() && #[trigger] self.orbit_set(prev[j], seq_without(idim, N as int)).contains(d);
                assert(r.orbit_set(prev[j], seq_without(idim, N1 as int)).contains(d));
            }
            assert(r.covered(prev, d, seq_without(idim, N1 as int)) == self.covered(prev, d, seq_without(idim, N as int)));
        }
    }

    /// Reallocating keeps the cells: for every dimension below `N`, the
    /// map `r` made by `reallocate` has the darts in use of this map and one
    /// dart per cell for the same darts, so as many cells.
    pub proof fn lemma_reallocate_keeps_cells<const N1: usize, const NA1: usize, const NL1: usize>(&self, r: &NGMap<N1, NA1, NL1>, idim: int)
        requires
            self.wf(),
            self.reallocated_as(r),
            0 <= idim < N,
        ensures
            r.all_darts() == self.all_darts(),
            r.reps(r.all_darts(), seq_without(idim, N1 as int)) == self.reps(self.all_darts(), seq_without(idim, N as int)),
    {
        self.lemma_reallocated_darts(r, self.len() as int);
        self.lemma_init_darts_below(self.len() as int);
        self.lemma_reallocated_reps(r, self.all_darts(), idim);
    }
}

} // verus!
