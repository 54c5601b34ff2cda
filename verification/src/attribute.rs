//! Storage of attributes attached to i-cells. A container maps attribute
//! indices to values of one type `T` and knows how to merge two values when
//! two cells become one and how to split one value when a cell becomes two.
//! Cells of different dimensions may carry attributes of unrelated types;
//! `ContainerGeneric` gathers what does not depend on the stored type.

use vstd::prelude::*;
use std::collections::HashMap;
use crate::index::AttributeIndex;

verus! {

broadcast use vstd::std_specs::hash::group_hash_axioms;

/// The operation applied to two attributes when their cells merge.
pub trait MergeFn<T> {
    /// What merging `data0` and `data1` into `r` means for this operation;
    /// an operation that states nothing holds of every result.
    open spec fn merges_into(&self, data0: T, data1: T, r: T) -> bool {
        true
    }

    fn merge(&self, data0: T, data1: T) -> (r: T)
        ensures
            self.merges_into(data0, data1, r),
    ;
}

/// The operation applied to an attribute when its cell splits in two.
pub trait SplitFn<T> {
    /// What splitting `data` into `r` means for this operation; an
    /// operation that states nothing holds of every result.
    open spec fn splits_into(&self, data: T, r: (T, T)) -> bool {
        true
    }

    fn split(&self, data: T) -> (r: (T, T))
        ensures
            self.splits_into(data, r),
    ;
}

/// Merging that keeps the first attribute.
pub struct MergeFirst;

/// Splitting that gives both cells a clone of the attribute.
pub struct SplitClone;

impl<T> MergeFn<T> for MergeFirst {
    /// The merge keeps the first attribute.
    open spec fn merges_into(&self, data0: T, data1: T, r: T) -> bool {
        r == data0
    }

    fn merge(&self, data0: T, data1: T) -> (r: T) {
        onmerge_default(data0, data1)
    }
}

impl<T: Clone> SplitFn<T> for SplitClone {
    /// The first half is a clone of the attribute, the second the
    /// attribute itself.
    open spec fn splits_into(&self, data: T, r: (T, T)) -> bool {
        cloned(data, r.0) && r.1 == data
    }

    fn split(&self, data: T) -> (r: (T, T)) {
        onsplit_default(data)
    }
}

/// The operations of an attribute container that do not depend on the
/// stored type, stated over the set of attribute indices in use.
pub trait ContainerGeneric {
    /// The attribute indices under which something is stored.
    spec fn keys(&self) -> Set<usize>;

    /// Number of stored attributes.
    fn len_(&self) -> (r: usize)
        ensures
            r == self.keys().len();

    /// `true` if an attribute is stored under `key`.
    fn contains_key_(&self, key: &AttributeIndex) -> (r: bool)
        ensures
            r == self.keys().contains(key.0);

    /// Replaces the attributes under `indices_old` by one under `index_new`;
    /// `false` if neither exists. A null `index_new` changes nothing.
    fn merge_data(&mut self, indices_old: (AttributeIndex, AttributeIndex), index_new: AttributeIndex) -> (r: bool)
        ensures
            index_new.is_null() ==> r && final(self).keys() == old(self).keys(),
            !index_new.is_null() ==> r == (old(self).keys().contains(indices_old.0.0) || old(self).keys().contains(indices_old.1.0)),
            !index_new.is_null() && !r ==> final(self).keys() == old(self).keys(),
            !index_new.is_null() && r ==> final(self).keys() == old(self).keys().remove(indices_old.0.0).remove(indices_old.1.0).insert(index_new.0);

    /// Removes the attribute under `key`; `true` if there was one.
    fn remove_data(&mut self, key: AttributeIndex) -> (r: bool)
        ensures
            r == (!key.is_null() && old(self).keys().contains(key.0)),
            key.is_null() ==> final(self).keys() == old(self).keys(),
            !key.is_null() ==> final(self).keys() == old(self).keys().remove(key.0);

    /// Replaces the attribute under `index_old` by two under `indices_new`;
    /// `false`, changing nothing, if an index in `indices_new` is null or
    /// nothing is stored under `index_old`.
    fn split_data(&mut self, index_old: AttributeIndex, indices_new: (AttributeIndex, AttributeIndex)) -> (r: bool)
        ensures
            r == (!indices_new.0.is_null() && !indices_new.1.is_null() && old(self).keys().contains(index_old.0)),
            !r ==> final(self).keys() == old(self).keys(),
            r ==> final(self).keys() == old(self).keys().remove(index_old.0).insert(indices_new.0.0).insert(indices_new.1.0);
}

/// Type-dependent attribute storage.
#[verifier::reject_recursive_types(T)]
pub struct InnerContainer<T, M, S> {
    pub onmerge: M,
    pub onsplit: S,
    pub map: HashMap<usize, T>,
}

impl<T, M: MergeFn<T>, S: SplitFn<T>> InnerContainer<T, M, S> {
    /// The stored attributes, by attribute index.
    pub open spec fn data(&self) -> Map<usize, T> {
        self.map@
    }

    /// An empty container with the given merge and split operations.
    pub fn new(onmerge: M, onsplit: S) -> (r: Self)
        ensures
            r.data() == Map::<usize, T>::empty(),
            r.onmerge == onmerge,
            r.onsplit == onsplit,
    {
        InnerContainer { onmerge, onsplit, map: HashMap::new() }
    }
}

impl<T, M: MergeFn<T>, S: SplitFn<T>> ContainerGeneric for InnerContainer<T, M, S> {
    open spec fn keys(&self) -> Set<usize> {
        self.data().dom()
    }

    fn len_(&self) -> (r: usize) {
        self.map.len()
    }

    fn contains_key_(&self, key: &AttributeIndex) -> (r: bool) {
        self.map.contains_key(&key.0)
    }

    /// The new attribute is the merge of both old ones if both exist, the
    /// one that exists otherwise.
    fn merge_data(&mut self, indices_old: (AttributeIndex, AttributeIndex), index_new: AttributeIndex) -> (r: bool)
        ensures
            index_new.is_null() ==> final(self).data() == old(self).data(),
            !index_new.is_null() ==> {
                let (i0, i1) = (indices_old.0.0, indices_old.1.0);
                let old_data = old(self).data();
                let rest = old_data.remove(i0).remove(i1);
                &&& !r ==> final(self).data() == old_data
                &&& r ==> final(self).data().remove(index_new.0) == rest.remove(index_new.0)
                &&& (old_data.contains_key(i0) && !(i0 != i1 && old_data.contains_key(i1))) ==> final(self).data()[index_new.0] == old_data[i0]
                &&& (!old_data.contains_key(i0) && i0 != i1 && old_data.contains_key(i1)) ==> final(self).data()[index_new.0] == old_data[i1]
                &&& (old_data.contains_key(i0) && i0 != i1 && old_data.contains_key(i1))
                    ==> old(self).onmerge.merges_into(old_data[i0], old_data[i1], final(self).data()[index_new.0])
            },
            final(self).onmerge == old(self).onmerge,
            final(self).onsplit == old(self).onsplit,
    {
        if index_new.0 == usize::MAX {
            return true;
        }
        let (idx0, idx1) = indices_old;
        let d0 = self.map.remove(&idx0.0);
        let d1 = self.map.remove(&idx1.0);
        match (d0, d1) {
            (Some(data0), Some(data1)) => {
                let data = self.onmerge.merge(data0, data1);
                self.map.insert(index_new.0, data);
                proof {
                    assert(final(self).data().dom() =~= old(self).data().remove(idx0.0).remove(idx1.0).dom().insert(index_new.0));
                    assert(final(self).data().remove(index_new.0) =~= old(self).data().remove(idx0.0).remove(idx1.0).remove(index_new.0));
                }
                true
            },
            (Some(data0), None) => {
                self.map.insert(index_new.0, data0);
                proof {
                    assert(final(self).data().dom() =~= old(self).data().remove(idx0.0).remove(idx1.0).dom().insert(index_new.0));
                    assert(final(self).data().remove(index_new.0) =~= old(self).data().remove(idx0.0).remove(idx1.0).remove(index_new.0));
                }
                true
            },
            (None, Some(data0)) => {
                self.map.insert(index_new.0, data0);
                proof {
                    assert(final(self).data().dom() =~= old(self).data().remove(idx0.0).remove(idx1.0).dom().insert(index_new.0));
                    assert(final(self).data().remove(index_new.0) =~= old(self).data().remove(idx0.0).remove(idx1.0).remove(index_new.0));
                }
                true
            },
            (None, None) => {
                assert(final(self).data() =~= old(self).data());
                false
            },
        }
    }

    fn remove_data(&mut self, key: AttributeIndex) -> (r: bool)
        ensures
            key.is_null() ==> final(self).data() == old(self).data(),
            !key.is_null() ==> final(self).data() == old(self).data().remove(key.0),
            final(self).onmerge == old(self).onmerge,
            final(self).onsplit == old(self).onsplit,
    {
        if key.0 == usize::MAX {
            return false;
        }
        let r = self.map.remove(&key.0).is_some();
        assert(final(self).data().dom() =~= old(self).data().dom().remove(key.0));
        r
    }

    /// The two new attributes are the halves of the split of the old one.
    fn split_data(&mut self, index_old: AttributeIndex, indices_new: (AttributeIndex, AttributeIndex)) -> (r: bool)
        ensures
            !r ==> final(self).data() == old(self).data(),
            r ==> final(self).data().remove(indices_new.0.0).remove(indices_new.1.0) == old(self).data().remove(index_old.0).remove(indices_new.0.0).remove(indices_new.1.0),
            r && indices_new.0.0 != indices_new.1.0 ==> old(self).onsplit.splits_into(old(self).data()[index_old.0],
                (final(self).data()[indices_new.0.0], final(self).data()[indices_new.1.0])),
            r && indices_new.0.0 == indices_new.1.0 ==> exists|h: T| #[trigger] old(self).onsplit.splits_into(old(self).data()[index_old.0],
                (h, final(self).data()[indices_new.1.0])),
            final(self).onmerge == old(self).onmerge,
            final(self).onsplit == old(self).onsplit,
    {
        let (idx0, idx1) = indices_new;
        if idx0.0 == usize::MAX || idx1.0 == usize::MAX {
            return false;
        }
        match self.map.remove(&index_old.0) {
            Some(data) => {
                let (data0, data1) = self.onsplit.split(data);
                let ghost g0 = data0;
                let ghost g1 = data1;
                self.map.insert(idx0.0, data0);
                self.map.insert(idx1.0, data1);
                proof {
                    assert(old(self).onsplit.splits_into(old(self).data()[index_old.0], (g0, g1)));
                    assert(self.data()[idx1.0] == g1);
                    let rest = old(self).data().remove(index_old.0);
                    assert(final(self).data().dom() =~= rest.dom().insert(idx0.0).insert(idx1.0));
                    assert(final(self).data().remove(idx0.0).remove(idx1.0) =~= rest.remove(idx0.0).remove(idx1.0));
                    assert(final(self).keys() =~= old(self).keys().remove(index_old.0).insert(idx0.0).insert(idx1.0));
                }
                true
            },
            None => false,
        }
    }
}

impl<T: Clone, M: MergeFn<T>, S: SplitFn<T>> InnerContainer<T, M, S> {
    /// Stores under `index` a clone of the attribute that `other` holds under
    /// `index_other`; `false`, changing nothing, if there is none.
    pub fn copy_data_from<M2: MergeFn<T>, S2: SplitFn<T>>(&mut self, index: AttributeIndex, other: &AttributeContainer<T, M2, S2>, index_other: &AttributeIndex) -> (r: bool)
        ensures
            r == other.get_data_spec(*index_other) is Some,
            !r ==> final(self).data() == old(self).data(),
            r ==> final(self).data().dom() == old(self).data().dom().insert(index.0),
            r ==> final(self).data().remove(index.0) == old(self).data().remove(index.0),
            r ==> cloned(other.data()[index_other.0], final(self).data()[index.0]),
    {
        match other.get_data(index_other) {
            Some(data_) => {
                let data = data_.clone();
                self.map.insert(index.0, data);
                proof {
                    assert(final(self).data().dom() =~= old(self).data().dom().insert(index.0));
                    assert(final(self).data().remove(index.0) =~= old(self).data().remove(index.0));
                }
                true
            },
            None => false,
        }
    }
}

/// An attribute container for values of type `T`.
#[verifier::reject_recursive_types(T)]
pub struct AttributeContainer<T, M, S> {
    pub assoc: InnerContainer<T, M, S>,
}

impl<T, M: MergeFn<T>, S: SplitFn<T>> AttributeContainer<T, M, S> {
    /// The stored attributes, by attribute index.
    pub open spec fn data(&self) -> Map<usize, T> {
        self.assoc.data()
    }

    /// What `get_data` returns.
    pub open spec fn get_data_spec(&self, index: AttributeIndex) -> Option<T> {
        if !index.is_null() && self.data().contains_key(index.0) {
            Some(self.data()[index.0])
        } else {
            None
        }
    }

    /// An empty container with the given merge and split operations.
    pub fn new(onmerge: M, onsplit: S) -> (r: Self)
        ensures
            r.data() == Map::<usize, T>::empty(),
            r.assoc.onmerge == onmerge,
            r.assoc.onsplit == onsplit,
    {
        AttributeContainer { assoc: InnerContainer::new(onmerge, onsplit) }
    }

    /// Stores `data` under `index`, replacing what was stored there.
    /// Returns `false`, changing nothing, for the null index.
    pub fn set_data(&mut self, index: AttributeIndex, data: T) -> (r: bool)
        ensures
            r == !index.is_null(),
            !r ==> final(self).data() == old(self).data(),
            r ==> final(self).data() == old(self).data().insert(index.0, data),
            final(self).assoc.onmerge == old(self).assoc.onmerge,
            final(self).assoc.onsplit == old(self).assoc.onsplit,
    {
        if index.0 == usize::MAX {
            return false;
        }
        self.assoc.map.insert(index.0, data);
        true
    }

    /// The attribute under `index`, if any.
    pub fn get_data(&self, index: &AttributeIndex) -> (r: Option<&T>)
        ensures
            r == (match self.get_data_spec(*index) {
                Some(v) => Some(&v),
                None => None,
            }),
    {
        if index.0 == usize::MAX {
            return None;
        }
        self.assoc.map.get(&index.0)
    }

    /// `true` if the container is not empty.
    pub fn has_data(&self, index: &AttributeIndex) -> (r: bool)
        ensures
            r == (self.data().len() > 0),
    {
        self.assoc.len_() > 0
    }

    /// Total number of stored attributes.
    pub fn len(&self) -> (r: usize)
        ensures
            r == self.data().len(),
    {
        self.assoc.len_()
    }

    /// Removes the attribute under `index`; `true` if there was one (never
    /// for the null index).
    pub fn remove_data(&mut self, index: AttributeIndex) -> (r: bool)
        ensures
            r == (!index.is_null() && old(self).data().contains_key(index.0)),
            index.is_null() ==> final(self).data() == old(self).data(),
            !index.is_null() ==> final(self).data() == old(self).data().remove(index.0),
    {
        self.assoc.remove_data(index)
    }

    /// Replaces the attributes under `indices_old` by one attribute under
    /// `index_new`: the merge of both if both exist, the one that exists
    /// otherwise. Returns `false`, changing nothing, if neither exists. A
    /// null `index_new` changes nothing and returns `true`.
    pub fn merge_data(&mut self, indices_old: (AttributeIndex, AttributeIndex), index_new: AttributeIndex) -> (r: bool)
        ensures
            index_new.is_null() ==> r && final(self).data() == old(self).data(),
            !index_new.is_null() ==> {
                let (i0, i1) = (indices_old.0.0, indices_old.1.0);
                let old_data = old(self).data();
                let rest = old_data.remove(i0).remove(i1);
                &&& r == (old_data.contains_key(i0) || old_data.contains_key(i1))
                &&& !r ==> final(self).data() == old_data
                &&& r ==> final(self).data().dom() == rest.dom().insert(index_new.0)
                &&& r ==> final(self).data().remove(index_new.0) == rest.remove(index_new.0)
                &&& (old_data.contains_key(i0) && !(i0 != i1 && old_data.contains_key(i1))) ==> final(self).data()[index_new.0] == old_data[i0]
                &&& (!old_data.contains_key(i0) && i0 != i1 && old_data.contains_key(i1)) ==> final(self).data()[index_new.0] == old_data[i1]
                &&& (old_data.contains_key(i0) && i0 != i1 && old_data.contains_key(i1))
                    ==> old(self).assoc.onmerge.merges_into(old_data[i0], old_data[i1], final(self).data()[index_new.0])
            },
            final(self).assoc.onmerge == old(self).assoc.onmerge,
            final(self).assoc.onsplit == old(self).assoc.onsplit,
    {
        self.assoc.merge_data(indices_old, index_new)
    }

    /// Replaces the attribute under `index_old` by the two halves of its
    /// split under `indices_new`. Returns `false`, changing nothing, if an
    /// index in `indices_new` is null or there is no attribute under
    /// `index_old`.
    pub fn split_data(&mut self, index_old: AttributeIndex, indices_new: (AttributeIndex, AttributeIndex)) -> (r: bool)
        ensures
            r == (!indices_new.0.is_null() && !indices_new.1.is_null() && old(self).data().contains_key(index_old.0)),
            !r ==> final(self).data() == old(self).data(),
            r ==> final(self).data().dom() == old(self).data().remove(index_old.0).dom().insert(indices_new.0.0).insert(indices_new.1.0),
            r ==> final(self).data().remove(indices_new.0.0).remove(indices_new.1.0) == old(self).data().remove(index_old.0).remove(indices_new.0.0).remove(indices_new.1.0),
            r && indices_new.0.0 != indices_new.1.0 ==> old(self).assoc.onsplit.splits_into(old(self).data()[index_old.0],
                (final(self).data()[indices_new.0.0], final(self).data()[indices_new.1.0])),
            r && indices_new.0.0 == indices_new.1.0 ==> exists|h: T| #[trigger] old(self).assoc.onsplit.splits_into(old(self).data()[index_old.0],
                (h, final(self).data()[indices_new.1.0])),
            final(self).assoc.onmerge == old(self).assoc.onmerge,
            final(self).assoc.onsplit == old(self).assoc.onsplit,
    {
        let r = self.assoc.split_data(index_old, indices_new);
        proof {
            if r {
                assert(self.data().dom() =~= old(self).data().remove(index_old.0).dom().insert(indices_new.0.0).insert(indices_new.1.0));
            }
        }
        r
    }
}

impl<T: Clone, M: MergeFn<T>, S: SplitFn<T>> AttributeContainer<T, M, S> {
    /// Stores under `index` a clone of the attribute that `other` holds under
    /// `index_other`; `false`, changing nothing, if there is none. `other`
    /// is left as it is.
    pub fn copy_data_from<M2: MergeFn<T>, S2: SplitFn<T>>(&mut self, index: AttributeIndex, other: &AttributeContainer<T, M2, S2>, index_other: &AttributeIndex) -> (r: bool)
        ensures
            r == other.get_data_spec(*index_other) is Some,
            !r ==> final(self).data() == old(self).data(),
            r ==> final(self).data().dom() == old(self).data().dom().insert(index.0),
            r ==> final(self).data().remove(index.0) == old(self).data().remove(index.0),
            r ==> cloned(other.data()[index_other.0], final(self).data()[index.0]),
    {
        self.assoc.copy_data_from(index, other, index_other)
    }
}

/// The default merge: keeps the first attribute.
pub fn onmerge_default<T>(data1: T, data2: T) -> (r: T)
    ensures
        r == data1,
{
    data1
}

/// The default split: a clone of the attribute for each half.
pub fn onsplit_default<T: Clone>(data: T) -> (r: (T, T))
    ensures
        cloned(data, r.0),
        r.1 == data,
{
    (data.clone(), data)
}

/// The default merge, boxed for a container.
pub fn onmerge_default_boxed<T>() -> (r: Box<MergeFirst>)
    ensures
        forall|a: T, b: T, c: T| #[trigger] r.merges_into(a, b, c) <==> c == a,
{
    Box::new(MergeFirst)
}

/// The default split, boxed for a container.
pub fn onsplit_default_boxed<T: Clone>() -> (r: Box<SplitClone>)
    ensures
        forall|d: T, p: (T, T)| #[trigger] r.splits_into(d, p) <==> (cloned(d, p.0) && p.1 == d),
{
    Box::new(SplitClone)
}

/// With the default operations, merging the two halves of a split gives
/// back the split attribute (as a clone) and the container as it was. Let
/// `c1` come from `c0` by `split_data(i, (a, b))` and `c2` from `c1` by
/// `merge_data((a, b), i)`, as their contracts state, where `a` and `b` are
/// distinct, hold nothing before, and differ from `i`, which holds an
/// attribute.
pub proof fn lemma_merge_after_split_restores<T: Clone, M: MergeFn<T>, S: SplitFn<T>>(
    c0: AttributeContainer<T, M, S>, c1: AttributeContainer<T, M, S>, c2: AttributeContainer<T, M, S>,
    i: usize, a: usize, b: usize)
    requires
        forall|x: T, y: T, z: T| #[trigger] c0.assoc.onmerge.merges_into(x, y, z) <==> z == x,
        forall|x: T, p: (T, T)| #[trigger] c0.assoc.onsplit.splits_into(x, p) <==> (cloned(x, p.0) && p.1 == x),
        a != b && a != i && b != i,
        c0.data().contains_key(i),
        !c0.data().contains_key(a),
        !c0.data().contains_key(b),
        c1.assoc.onmerge == c0.assoc.onmerge,
        c1.data().dom() == c0.data().remove(i).dom().insert(a).insert(b),
        c1.data().remove(a).remove(b) == c0.data().remove(i).remove(a).remove(b),
        c0.assoc.onsplit.splits_into(c0.data()[i], (c1.data()[a], c1.data()[b])),
        c2.data().dom() == c1.data().remove(a).remove(b).dom().insert(i),
        c2.data().remove(i) == c1.data().remove(a).remove(b).remove(i),
        c1.assoc.onmerge.merges_into(c1.data()[a], c1.data()[b], c2.data()[i]),
    ensures
        c2.data().dom() == c0.data().dom(),
        c2.data().remove(i) == c0.data().remove(i),
        cloned(c0.data()[i], c2.data()[i]),
{
    assert(c2.data().dom() =~= c0.data().dom());
    assert(c2.data().remove(i) =~= c0.data().remove(i)) by {
        assert forall|k: usize| c2.data().remove(i).contains_key(k) implies c2.data().remove(i)[k] == c0.data().remove(i)[k] by {
            assert(c1.data().remove(a).remove(b).remove(i)[k] == c1.data()[k]);
            assert(c1.data().remove(a).remove(b)[k] == c0.data().remove(i).remove(a).remove(b)[k]);
        }
    }
}

/// A boxed merge operation merges as the operation in the box.
impl<T, M: MergeFn<T>> MergeFn<T> for Box<M> {
    open spec fn merges_into(&self, data0: T, data1: T, r: T) -> bool {
        (**self).merges_into(data0, data1, r)
    }

    fn merge(&self, data0: T, data1: T) -> (r: T) {
        (**self).merge(data0, data1)
    }
}

/// A boxed split operation splits as the operation in the box.
impl<T, S: SplitFn<T>> SplitFn<T> for Box<S> {
    open spec fn splits_into(&self, data: T, r: (T, T)) -> bool {
        (**self).splits_into(data, r)
    }

    fn split(&self, data: T) -> (r: (T, T)) {
        (**self).split(data)
    }
}

} // verus!
