//! Marks: boolean flags on darts, each under its own mark index, so that
//! algorithms can tell processed darts apart. A mark is reserved before use
//! and freed afterwards.

use vstd::prelude::*;
use crate::index::{DartIndex, MarkIndex};
use crate::dart::{vec_repeat, repeat};
use crate::orbits::seq_without;
use crate::iterators::ids;
use super::NGMap;

verus! {

broadcast use vstd::std_specs::hash::group_hash_axioms;

impl<const N: usize, const NA: usize, const NL: usize> NGMap<N, NA, NL> {
    /// The map is unchanged except possibly for its marks.
    pub open spec fn same_except_marks(&self, other: &Self) -> bool {
        &&& other.ndims == self.ndims
        &&& other.darts@ == self.darts@
        &&& other.dart_index_allocator == self.dart_index_allocator
        &&& other.attribute_container_indices@ == self.attribute_container_indices@
        &&& other.attribute_index_allocators@ == self.attribute_index_allocators@
        &&& other.attribute_actions@ == self.attribute_actions@
    }

    /// Marks stay well-formed when only marks change within the darts.
    pub proof fn lemma_wf_marks(&self, other: &Self)
        requires
            self.wf(),
            self.same_except_marks(other),
            forall|m: usize| other.marks@.contains_key(m) ==> (#[trigger] other.marks@[m])@.len() <= other.len(),
        ensures
            other.wf(),
    {
        assert forall|d: int, k: int| 0 <= d < other.len() && 0 <= k < N implies #[trigger] other.alpha(d, k) < other.len() by {
            assert(self.alpha(d, k) < self.len());
        }
        assert forall|d: int| 0 <= d < other.len() implies (#[trigger] other.darts@[d]).wf() by {
            assert(self.darts@[d].wf());
        }
    }

    /// The smallest mark index that no held mark has.
    pub open spec fn first_free_mark(&self) -> usize {
        choose|k: usize| Self::free_mark_at(self.marks@.dom(), k)
    }

    /// `k` is not held, and every smaller index is.
    pub open spec fn free_mark_at(held: Set<usize>, k: usize) -> bool {
        &&& !held.contains(k)
        &&& forall|j: usize| j < k ==> held.contains(j)
    }

    /// Reserves a mark under which no dart is marked. Its index is the
    /// smallest one that no held mark has.
    pub fn reserve_mark(&mut self) -> (r: MarkIndex)
        requires
            old(self).wf(),
        ensures
            final(self).wf(),
            final(self).same_except_marks(old(self)),
            r.0 == old(self).first_free_mark(),
            !old(self).marks@.contains_key(r.0),
            final(self).marks@.dom() == old(self).marks@.dom().insert(r.0),
            forall|m: usize, d: int| #[trigger] final(self).marked(m, d) == (m != r.0 && old(self).marked(m, d)),
            forall|m: usize| m != r.0 && old(self).marks@.contains_key(m) ==> #[trigger] final(self).marks@[m] == old(self).marks@[m],
    {
        let vec: Vec<bool> = vec_repeat(false, self.darts.len());
        let held = self.marks.len();
        let mut k: usize = 0;
        while k < usize::MAX && self.marks.contains_key(&k)
            invariant
                forall|j: usize| j < k ==> self.marks@.contains_key(j),
            decreases usize::MAX - k,
        {
            k = k + 1;
        }
        proof {
            if self.marks@.contains_key(k) {
                lemma_all_below_len(self.marks@.dom(), held as int);
                let j = choose|j: usize| !self.marks@.dom().contains(j);
                assert(j < k || j == k);
            }
            let c = choose|c: usize| Self::free_mark_at(self.marks@.dom(), c);
            assert(Self::free_mark_at(self.marks@.dom(), k));
            if c < k {
                assert(self.marks@.contains_key(c));
            } else if c > k {
                assert(self.marks@.dom().contains(k));
            }
        }
        let mark = MarkIndex(k);
        let ghost before = *self;
        self.marks.insert(mark.0, vec);
        proof {
            before.lemma_wf_marks(self);
            assert forall|m: usize, d: int| #[trigger] self.marked(m, d) == (m != mark.0 && before.marked(m, d)) by {
                if m == mark.0 && self.marked(m, d) {
                    assert(self.marks@[m]@ == repeat(false, before.len() as nat));
                }
            }
        }
        mark
    }

    /// Releases mark `mark`; `true` if it was held.
    pub fn free_mark(&mut self, mark: MarkIndex) -> (r: bool)
        requires
            old(self).wf(),
        ensures
            final(self).wf(),
            final(self).same_except_marks(old(self)),
            r == old(self).marks@.contains_key(mark.0),
            final(self).marks@ == old(self).marks@.remove(mark.0),
    {
        let ghost before = *self;
        let r = self.marks.remove(&mark.0).is_some();
        proof {
            before.lemma_wf_marks(self);
        }
        r
    }

    /// Releases all marks.
    pub fn free_marks(&mut self)
        requires
            old(self).wf(),
        ensures
            final(self).wf(),
            final(self).same_except_marks(old(self)),
            final(self).marks@ == Map::<usize, Vec<bool>>::empty(),
    {
        let ghost before = *self;
        self.marks.clear();
        proof {
            before.lemma_wf_marks(self);
        }
    }

    /// `true` if `dart` is marked with `mark`.
    pub fn is_marked(&self, dart: &DartIndex, mark: &MarkIndex) -> (r: bool)
        requires
            self.wf(),
            self.marks@.contains_key(mark.0) ==> dart.0 < self.len(),
        ensures
            r == self.marked(mark.0, dart.0 as int),
    {
        match self.marks.get(&mark.0) {
            Some(v) => dart.0 < v.len() && v[dart.0],
            None => false,
        }
    }

    /// Sets mark `mark` on `dart` to `value`; `false` if the mark is not
    /// held.
    fn set_mark(&mut self, dart: &DartIndex, mark: &MarkIndex, value: bool) -> (r: bool)
        requires
            old(self).wf(),
            old(self).marks@.contains_key(mark.0) ==> dart.0 < old(self).len(),
        ensures
            final(self).wf(),
            final(self).same_except_marks(old(self)),
            final(self).marks@.dom() == old(self).marks@.dom(),
            r == old(self).marks@.contains_key(mark.0),
            forall|m: usize, d: int| #[trigger] final(self).marked(m, d) == (
                if r && m == mark.0 && d == dart.0 { value } else { old(self).marked(m, d) }),
            forall|m: usize| m != mark.0 && old(self).marks@.contains_key(m) ==> #[trigger] final(self).marks@[m] == old(self).marks@[m],
    {
        let ghost before = *self;
        match self.marks.remove(&mark.0) {
            Some(v) => {
                let mut v = v;
                while v.len() <= dart.0
                    invariant
                        dart.0 < before.len(),
                        before.marks@.contains_key(mark.0),
                        v@.len() <= before.len(),
                        v@.len() >= before.marks@[mark.0]@.len(),
                        forall|d: int| 0 <= d < v@.len() ==> #[trigger] v@[d] == (d < before.marks@[mark.0]@.len() && before.marks@[mark.0]@[d]),
                    decreases dart.0 + 1 - v@.len(),
                {
                    v.push(false);
                }
                v.set(dart.0, value);
                let ghost vv = v@;
                self.marks.insert(mark.0, v);
                proof {
                    assert forall|m: usize| self.marks@.contains_key(m) implies (#[trigger] self.marks@[m])@.len() <= self.len() by {
                        if m != mark.0 {
                            assert(self.marks@[m] == before.marks@[m]);
                        } else {
                            assert(self.marks@[m]@ == vv);
                        }
                    }
                    before.lemma_wf_marks(self);
                    assert(self.marks@.dom() =~= before.marks@.dom());
                    assert forall|m: usize, d: int| #[trigger] self.marked(m, d) == (
                        if m == mark.0 && d == dart.0 { value } else { before.marked(m, d) }) by {
                        if m != mark.0 {
                            if self.marks@.contains_key(m) {
                                assert(self.marks@[m] == before.marks@[m]);
                            }
                        } else {
                            assert(self.marks@[m]@ == vv);
                            if d != dart.0 && 0 <= d < vv.len() {
                                assert(vv[d] == (d < before.marks@[mark.0]@.len() && before.marks@[mark.0]@[d]));
                            }
                        }
                    }
                }
                true
            },
            None => {
                assert(self.marks@ =~= before.marks@);
                proof {
                    before.lemma_wf_marks(self);
                }
                false
            },
        }
    }

    /// Marks `dart` with `mark`; `false` if the mark is not held.
    pub fn mark(&mut self, dart: &DartIndex, mark: &MarkIndex) -> (r: bool)
        requires
            old(self).wf(),
            old(self).marks@.contains_key(mark.0) ==> dart.0 < old(self).len(),
        ensures
            final(self).wf(),
            final(self).same_except_marks(old(self)),
            final(self).marks@.dom() == old(self).marks@.dom(),
            r == old(self).marks@.contains_key(mark.0),
            forall|m: usize, d: int| #[trigger] final(self).marked(m, d) == (
                if r && m == mark.0 && d == dart.0 { true } else { old(self).marked(m, d) }),
            forall|m: usize| m != mark.0 && old(self).marks@.contains_key(m) ==> #[trigger] final(self).marks@[m] == old(self).marks@[m],
    {
        self.set_mark(dart, mark, true)
    }

    /// Removes mark `mark` from `dart`; `false` if the mark is not held.
    pub fn unmark(&mut self, dart: &DartIndex, mark: &MarkIndex) -> (r: bool)
        requires
            old(self).wf(),
            old(self).marks@.contains_key(mark.0) ==> dart.0 < old(self).len(),
        ensures
            final(self).wf(),
            final(self).same_except_marks(old(self)),
            final(self).marks@.dom() == old(self).marks@.dom(),
            r == old(self).marks@.contains_key(mark.0),
            forall|m: usize, d: int| #[trigger] final(self).marked(m, d) == (
                if r && m == mark.0 && d == dart.0 { false } else { old(self).marked(m, d) }),
            forall|m: usize| m != mark.0 && old(self).marks@.contains_key(m) ==> #[trigger] final(self).marks@[m] == old(self).marks@[m],
    {
        self.set_mark(dart, mark, false)
    }

    /// Sets mark `mark` to `value` on every dart of the `idim`-cell of
    /// `dart`.
    fn set_mark_cell(&mut self, dart: &DartIndex, mark: &MarkIndex, idim: usize, value: bool)
        requires
            old(self).wf(),
            dart.0 < old(self).len(),
            idim < N,
        ensures
            final(self).wf(),
            final(self).same_except_marks(old(self)),
            final(self).marks@.dom() == old(self).marks@.dom(),
            forall|m: usize, d: int| #[trigger] final(self).marked(m, d) == (
                if old(self).marks@.contains_key(mark.0) && m == mark.0 && old(self).orbit_set(dart.0 as int, seq_without(idim as int, N as int)).contains(d) {
                    value
                } else {
                    old(self).marked(m, d)
                }),
    {
        let darts = self.iter_darts_in_cell(*dart, idim).items;
        proof {
            self.lemma_orbit_ids(dart.0 as int, seq_without(idim as int, N as int), darts@);
        }
        let ghost before = *self;
        let ghost cell = before.orbit_set(dart.0 as int, seq_without(idim as int, N as int));
        let mut k: usize = 0;
        while k < darts.len()
            invariant
                self.wf(),
                self.same_except_marks(&before),
                before.wf(),
                self.marks@.dom() == before.marks@.dom(),
                k <= darts@.len(),
                ids(darts@) == cell,
                forall|i: int| 0 <= i < darts@.len() ==> (#[trigger] darts@[i]).0 < before.len(),
                forall|m: usize, d: int| #[trigger] self.marked(m, d) == (
                    if before.marks@.contains_key(mark.0) && m == mark.0 && (exists|i: int| 0 <= i < k && (#[trigger] darts@[i]).0 == d) {
                        value
                    } else {
                        before.marked(m, d)
                    }),
            decreases darts@.len() - k,
        {
            let di = darts[k];
            self.set_mark(&di, mark, value);
            k = k + 1;
            proof {
                assert forall|m: usize, d: int| #[trigger] self.marked(m, d) == (
                    if before.marks@.contains_key(mark.0) && m == mark.0 && (exists|i: int| 0 <= i < k && (#[trigger] darts@[i]).0 == d) {
                        value
                    } else {
                        before.marked(m, d)
                    }) by {
                    if d == di.0 {
                        assert(darts@[k - 1].0 == d);
                    }
                }
            }
        }
    }

    /// Marks every dart of the `idim`-cell of `dart` with `mark`.
    pub fn mark_cell(&mut self, dart: &DartIndex, mark: &MarkIndex, idim: usize) -> (r: bool)
        requires
            old(self).wf(),
            dart.0 < old(self).len(),
            idim < N,
        ensures
            r,
            final(self).wf(),
            final(self).same_except_marks(old(self)),
            final(self).marks@.dom() == old(self).marks@.dom(),
            forall|m: usize, d: int| #[trigger] final(self).marked(m, d) == (
                if old(self).marks@.contains_key(mark.0) && m == mark.0 && old(self).orbit_set(dart.0 as int, seq_without(idim as int, N as int)).contains(d) {
                    true
                } else {
                    old(self).marked(m, d)
                }),
    {
        self.set_mark_cell(dart, mark, idim, true);
        true
    }

    /// Removes mark `mark` from every dart of the `idim`-cell of `dart`.
    pub fn unmark_cell(&mut self, dart: &DartIndex, mark: &MarkIndex, idim: usize) -> (r: bool)
        requires
            old(self).wf(),
            dart.0 < old(self).len(),
            idim < N,
        ensures
            r,
            final(self).wf(),
            final(self).same_except_marks(old(self)),
            final(self).marks@.dom() == old(self).marks@.dom(),
            forall|m: usize, d: int| #[trigger] final(self).marked(m, d) == (
                if old(self).marks@.contains_key(mark.0) && m == mark.0 && old(self).orbit_set(dart.0 as int, seq_without(idim as int, N as int)).contains(d) {
                    false
                } else {
                    old(self).marked(m, d)
                }),
    {
        self.set_mark_cell(dart, mark, idim, false);
        true
    }
}

/// The indices below `m`, as a set.
pub open spec fn indices_below(m: int) -> Set<usize> {
    Set::new(|x: usize| x < m)
}

/// There are `m` indices below `m`.
pub proof fn lemma_indices_below(m: int)
    requires
        0 <= m <= usize::MAX + 1,
    ensures
        indices_below(m).finite(),
        indices_below(m).len() == m,
    decreases m,
{
    if m == 0 {
        assert(indices_below(0) =~= Set::<usize>::empty());
    } else {
        lemma_indices_below(m - 1);
        assert(indices_below(m) =~= indices_below(m - 1).insert((m - 1) as usize));
    }
}

/// A set of indices with at most `usize::MAX` members lacks some index.
pub proof fn lemma_all_below_len(held: Set<usize>, n: int)
    requires
        held.finite(),
        held.len() == n,
        n <= usize::MAX,
    ensures
        exists|j: usize| !held.contains(j),
{
    if forall|j: usize| #[trigger] held.contains(j) {
        lemma_indices_below(usize::MAX + 1);
        assert(indices_below(usize::MAX + 1).subset_of(held));
        vstd::set_lib::lemma_len_subset(indices_below(usize::MAX + 1), held);
    }
}

} // verus!
