//! Hands out indices for slots of a storage vector and takes freed ones back.

use vstd::prelude::*;
use std::cmp::Ordering;
use vstd::std_specs::cmp::{PartialEqSpecImpl, PartialOrdSpecImpl};

verus! {

/// A run of `count` consecutive freed indices starting at `start`.
#[derive(Clone, Copy, PartialEq, Eq, Structural, Debug)]
pub struct AllocationNode {
    pub start: usize,
    pub count: usize,
}

impl AllocationNode {
    /// One past the last index of the run.
    pub open spec fn end(self) -> int {
        self.start + self.count
    }

    /// `index` lies in the run or directly after it.
    pub open spec fn touches(self, index: int) -> bool {
        self.start <= index <= self.end()
    }

    /// `index` lies in the run.
    pub open spec fn holds(self, index: int) -> bool {
        self.start <= index < self.end()
    }
}

/// A run equals an index that lies in it or directly after it.
impl PartialEq<usize> for AllocationNode {
    fn eq(&self, other: &usize) -> (r: bool) {
        *other >= self.start && *other - self.start <= self.count
    }
}

impl PartialEqSpecImpl<usize> for AllocationNode {
    open spec fn obeys_eq_spec() -> bool {
        true
    }

    open spec fn eq_spec(&self, other: &usize) -> bool {
        *other >= self.start && *other <= self.start + self.count
    }
}

/// A run compares with an index: `Less` when the index lies before it,
/// `Equal` when it lies in it or directly after it, `Greater` beyond.
impl PartialOrd<usize> for AllocationNode {
    fn partial_cmp(&self, other: &usize) -> (r: Option<Ordering>) {
        if *other < self.start {
            return Some(Ordering::Less);
        }
        if self.eq(other) {
            return Some(Ordering::Equal);
        }
        Some(Ordering::Greater)
    }
}

impl PartialOrdSpecImpl<usize> for AllocationNode {
    open spec fn obeys_partial_cmp_spec() -> bool {
        true
    }

    open spec fn partial_cmp_spec(&self, other: &usize) -> Option<Ordering> {
        if *other < self.start {
            Some(Ordering::Less)
        } else if *other <= self.start + self.count {
            Some(Ordering::Equal)
        } else {
            Some(Ordering::Greater)
        }
    }
}

/// Allocates and deallocates indices for storage in a vector. After
/// initialization, allocated indices grow by one; freed indices are kept as
/// runs of consecutive indices and are handed out again before new ones.
#[derive(Debug)]
pub struct IndexAllocator {
    pub count: usize,
    pub nodes: Vec<AllocationNode>,
}

/// The set of indices held by some run of `nodes`.
pub open spec fn free_set_of(nodes: Seq<AllocationNode>) -> Set<int> {
    Set::new(|k: int| exists|j: int| 0 <= j < nodes.len() && #[trigger] nodes[j].holds(k))
}


/// What reserving an index returns, with the next counter and runs.
pub open spec fn reserve_spec(count: usize, nodes: Seq<AllocationNode>) -> (usize, usize, Seq<AllocationNode>) {
    if nodes.len() > 0 {
        let node = nodes[0];
        if node.count > 1 {
            (node.start, count, nodes.update(0, AllocationNode { start: (node.start + 1) as usize, count: (node.count - 1) as usize }))
        } else {
            (node.start, count, nodes.drop_first())
        }
    } else {
        (count, (count + 1) as usize, nodes)
    }
}

/// The run at position `j` decides where a freed `index` goes.
pub open spec fn stops_at(count: usize, nodes: Seq<AllocationNode>, index: int, j: int) -> bool {
    ||| nodes[j].touches(index)
    ||| (j == 0 && index > nodes[0].end())
    ||| (j == nodes.len() - 1 && index < count)
}

/// The first position at which a freed `index` stops.
pub open spec fn first_stop(count: usize, nodes: Seq<AllocationNode>, index: int, j: int) -> bool {
    &&& 0 <= j < nodes.len()
    &&& stops_at(count, nodes, index, j)
    &&& forall|i: int| 0 <= i < j ==> !#[trigger] stops_at(count, nodes, index, i)
}

/// What freeing `index` returns and the runs it leaves.
pub open spec fn free_spec(count: usize, nodes: Seq<AllocationNode>, index: usize) -> (bool, Seq<AllocationNode>) {
    let single = AllocationNode { start: index, count: 1 };
    if nodes.len() == 0 {
        (true, seq![single])
    } else if exists|j: int| first_stop(count, nodes, index as int, j) {
        let j = choose|j: int| first_stop(count, nodes, index as int, j);
        if nodes[j].touches(index as int) {
            if index == nodes[j].end() {
                (true, nodes.update(j, AllocationNode { start: nodes[j].start, count: (nodes[j].count + 1) as usize }))
            } else {
                (false, nodes)
            }
        } else if j == 0 && index > nodes[0].end() {
            (true, nodes.push(single))
        } else {
            (true, seq![single] + nodes)
        }
    } else {
        (false, nodes)
    }
}

/// Runs that are non-empty and end within the range of `usize`.
pub open spec fn runs_wf(nodes: Seq<AllocationNode>) -> bool {
    forall|j: int|
        0 <= j < nodes.len() ==> {
            &&& (#[trigger] nodes[j]).count >= 1
            &&& nodes[j].end() <= usize::MAX
        }
}

/// No index lies in two runs.
pub open spec fn runs_disjoint(nodes: Seq<AllocationNode>) -> bool {
    forall|i: int, j: int, k: int|
        #![trigger nodes[i].holds(k), nodes[j].holds(k)]
        0 <= i < j < nodes.len() && nodes[i].holds(k) ==> !nodes[j].holds(k)
}

impl IndexAllocator {
    /// Every run is non-empty and ends within the range of `usize`.
    pub open spec fn wf(&self) -> bool {
        runs_wf(self.nodes@)
    }

    /// The freed indices waiting to be handed out again.
    pub open spec fn free_set(&self) -> Set<int> {
        free_set_of(self.nodes@)
    }

    /// What `reserve_index` returns, with the counter and runs it leaves.
    pub open spec fn spec_reserve(self) -> (usize, usize, Seq<AllocationNode>) {
        reserve_spec(self.count, self.nodes@)
    }

    /// What `free_index(index)` returns and the runs it leaves.
    pub open spec fn spec_free(self, index: usize) -> (bool, Seq<AllocationNode>) {
        free_spec(self.count, self.nodes@, index)
    }

    /// An allocator whose next fresh index is `start`, with no freed runs.
    pub fn new(start: usize) -> (r: Self)
        ensures
            r.wf(),
            r.count == start,
            r.nodes@ == Seq::<AllocationNode>::empty(),
    {
        IndexAllocator { count: start, nodes: Vec::new() }
    }

    /// Returns a new index on demand: the first index of the first freed run
    /// if there is one, the next fresh index otherwise.
    pub fn reserve_index(&mut self) -> (r: usize)
        requires
            old(self).wf(),
            old(self).nodes@.len() == 0 ==> old(self).count < usize::MAX,
        ensures
            final(self).wf(),
            (r, final(self).count, final(self).nodes@) == old(self).spec_reserve(),
    {
        if self.nodes.len() > 0 {
            let node = self.nodes[0];
            if node.count > 1 {
                let current = node.start;
                self.nodes.set(0, AllocationNode { start: node.start + 1, count: node.count - 1 });
                current
            } else {
                let current = node.start;
                self.nodes.remove(0);
                assert(self.nodes@ =~= old(self).nodes@.drop_first());
                current
            }
        } else {
            let current = self.count;
            self.count = self.count + 1;
            current
        }
    }

    /// "Deallocates" a previously produced index, storing it among the freed
    /// runs so that a later `reserve_index` can hand it out again. Returns
    /// `false` when the index is not taken back.
    pub fn free_index(&mut self, index: usize) -> (r: bool)
        requires
            old(self).wf(),
            index < usize::MAX,
        ensures
            final(self).wf(),
            final(self).count == old(self).count,
            (r, final(self).nodes@) == old(self).spec_free(index),
    {
        let single = AllocationNode { start: index, count: 1 };
        if self.nodes.len() == 0 {
            self.nodes.insert(0, single);
            assert(self.nodes@ =~= seq![single]);
            return true;
        }
        let len = self.nodes.len();
        let mut idx: usize = 0;
        while idx < len
            invariant
                old(self).wf(),
                *self == *old(self),
                len == self.nodes@.len(),
                len > 0,
                idx <= len,
                index < usize::MAX,
                single == (AllocationNode { start: index, count: 1 }),
                forall|i: int| 0 <= i < idx ==> !#[trigger] stops_at(self.count, self.nodes@, index as int, i),
            decreases len - idx,
        {
            let node = self.nodes[idx];
            proof {
                if first_stop(self.count, self.nodes@, index as int, idx as int) {
                    lemma_first_stop_unique(self.count, self.nodes@, index as int, idx as int);
                }
            }
            if node.start <= index && index <= node.start + node.count {
                assert(first_stop(self.count, self.nodes@, index as int, idx as int));
                if index == node.start + node.count {
                    self.nodes.set(idx, AllocationNode { start: node.start, count: node.count + 1 });
                    return true;
                }
                return false;
            }
            if idx == 0 && index > node.start + node.count {
                assert(first_stop(self.count, self.nodes@, index as int, idx as int));
                self.nodes.push(single);
                assert(runs_wf(self.nodes@)) by {
                    assert forall|j: int| 0 <= j < self.nodes@.len() implies {
                        &&& (#[trigger] self.nodes@[j]).count >= 1
                        &&& self.nodes@[j].end() <= usize::MAX
                    } by {
                        if j < len {
                            assert(self.nodes@[j] == old(self).nodes@[j]);
                        }
                    }
                }
                return true;
            }
            if idx == len - 1 && index < self.count {
                assert(first_stop(self.count, self.nodes@, index as int, idx as int));
                self.nodes.insert(0, single);
                assert(self.nodes@ =~= seq![single] + old(self).nodes@);
                assert(runs_wf(self.nodes@)) by {
                    assert forall|j: int| 0 <= j < self.nodes@.len() implies {
                        &&& (#[trigger] self.nodes@[j]).count >= 1
                        &&& self.nodes@[j].end() <= usize::MAX
                    } by {
                        if j > 0 {
                            assert(self.nodes@[j] == old(self).nodes@[j - 1]);
                        }
                    }
                }
                return true;
            }
            idx = idx + 1;
        }
        assert(!exists|j: int| first_stop(self.count, self.nodes@, index as int, j));
        false
    }
}

/// The first stop of a freed index is unique.
proof fn lemma_first_stop_unique(count: usize, nodes: Seq<AllocationNode>, index: int, j: int)
    requires
        first_stop(count, nodes, index, j),
    ensures
        (choose|i: int| first_stop(count, nodes, index, i)) == j,
{
    let c = choose|i: int| first_stop(count, nodes, index, i);
    if c < j {
        assert(stops_at(count, nodes, index, c));
    } else if c > j {
        assert(stops_at(count, nodes, index, j));
    }
}

/// Freeing an index into an allocator with no freed runs, then reserving,
/// hands that index back and leaves the allocator as it was before the free.
pub proof fn lemma_free_then_reserve_restores(count: usize, index: usize)
    requires
        index < usize::MAX,
    ensures
        free_spec(count, Seq::<AllocationNode>::empty(), index).0,
        reserve_spec(count, free_spec(count, Seq::<AllocationNode>::empty(), index).1)
            == (index, count, Seq::<AllocationNode>::empty()),
{
    let single = AllocationNode { start: index, count: 1 };
    assert(seq![single].drop_first() =~= Seq::<AllocationNode>::empty());
}

/// With no freed runs, indices are handed out in increasing order from the
/// counter.
pub proof fn lemma_fresh_indices_grow(count: usize)
    requires
        count < usize::MAX,
    ensures
        reserve_spec(count, Seq::<AllocationNode>::empty()) == (count, (count + 1) as usize, Seq::<AllocationNode>::empty()),
{
}

/// A successful free adds exactly the freed index to the set of freed
/// indices; a refused free leaves the runs unchanged.
pub proof fn lemma_free_adds_index(count: usize, nodes: Seq<AllocationNode>, index: usize)
    requires
        runs_wf(nodes),
        index < usize::MAX,
    ensures
        free_spec(count, nodes, index).0 ==> free_set_of(free_spec(count, nodes, index).1) == free_set_of(nodes).insert(index as int),
        !free_spec(count, nodes, index).0 ==> free_spec(count, nodes, index).1 == nodes,
{
    let single = AllocationNode { start: index, count: 1 };
    let (r, after) = free_spec(count, nodes, index);
    if nodes.len() == 0 {
        assert(after == seq![single]);
        assert forall|k: int| free_set_of(after).contains(k) <==> free_set_of(nodes).insert(index as int).contains(k) by {
            if k == index {
                assert(after[0].holds(k));
            }
        }
        assert(free_set_of(after) =~= free_set_of(nodes).insert(index as int));
    } else if exists|j: int| first_stop(count, nodes, index as int, j) {
        let j = choose|j: int| first_stop(count, nodes, index as int, j);
        if nodes[j].touches(index as int) {
            if index == nodes[j].end() {
                let nj = AllocationNode { start: nodes[j].start, count: (nodes[j].count + 1) as usize };
                assert(after == nodes.update(j, nj));
                assert forall|k: int| free_set_of(after).contains(k) <==> free_set_of(nodes).insert(index as int).contains(k) by {
                    if free_set_of(after).contains(k) {
                        let m = choose|m: int| 0 <= m < after.len() && #[trigger] after[m].holds(k);
                        if m != j {
                            assert(nodes[m].holds(k));
                        } else if k != index {
                            assert(nodes[j].holds(k));
                        }
                    }
                    if free_set_of(nodes).insert(index as int).contains(k) {
                        if k == index {
                            assert(after[j].holds(k));
                        } else {
                            let m = choose|m: int| 0 <= m < nodes.len() && #[trigger] nodes[m].holds(k);
                            assert(after[m].holds(k));
                        }
                    }
                }
                assert(free_set_of(after) =~= free_set_of(nodes).insert(index as int));
            }
        } else if j == 0 && index > nodes[0].end() {
            assert(after == nodes.push(single));
            assert forall|k: int| free_set_of(after).contains(k) <==> free_set_of(nodes).insert(index as int).contains(k) by {
                if free_set_of(after).contains(k) {
                    let m = choose|m: int| 0 <= m < after.len() && #[trigger] after[m].holds(k);
                    if m < nodes.len() {
                        assert(nodes[m].holds(k));
                    }
                }
                if free_set_of(nodes).insert(index as int).contains(k) {
                    if k == index {
                        assert(after[nodes.len() as int].holds(k));
                    } else {
                        let m = choose|m: int| 0 <= m < nodes.len() && #[trigger] nodes[m].holds(k);
                        assert(after[m].holds(k));
                    }
                }
            }
            assert(free_set_of(after) =~= free_set_of(nodes).insert(index as int));
        } else {
            assert(after == seq![single] + nodes);
            assert forall|k: int| free_set_of(after).contains(k) <==> free_set_of(nodes).insert(index as int).contains(k) by {
                if free_set_of(after).contains(k) {
                    let m = choose|m: int| 0 <= m < after.len() && #[trigger] after[m].holds(k);
                    if m > 0 {
                        assert(nodes[m - 1].holds(k));
                    }
                }
                if free_set_of(nodes).insert(index as int).contains(k) {
                    if k == index {
                        assert(after[0].holds(k));
                    } else {
                        let m = choose|m: int| 0 <= m < nodes.len() && #[trigger] nodes[m].holds(k);
                        assert(after[m + 1].holds(k));
                    }
                }
            }
            assert(free_set_of(after) =~= free_set_of(nodes).insert(index as int));
        }
    }
}

/// Reserving while freed runs exist hands out a freed index, and the set of
/// freed indices loses at most that index.
pub proof fn lemma_reserve_takes_freed(count: usize, nodes: Seq<AllocationNode>)
    requires
        runs_wf(nodes),
        nodes.len() > 0,
    ensures
        free_set_of(nodes).contains(reserve_spec(count, nodes).0 as int),
        reserve_spec(count, nodes).1 == count,
        free_set_of(reserve_spec(count, nodes).2).subset_of(free_set_of(nodes)),
        free_set_of(nodes).subset_of(free_set_of(reserve_spec(count, nodes).2).insert(reserve_spec(count, nodes).0 as int)),
{
    let (r, c, after) = reserve_spec(count, nodes);
    assert(nodes[0].count >= 1);
    assert(nodes[0].holds(r as int));
    assert forall|k: int| free_set_of(after).contains(k) implies free_set_of(nodes).contains(k) by {
        let m = choose|m: int| 0 <= m < after.len() && #[trigger] after[m].holds(k);
        if nodes[0].count > 1 {
            assert(nodes[m].holds(k));
        } else {
            assert(nodes[m + 1].holds(k));
        }
    }
    assert forall|k: int| free_set_of(nodes).contains(k) implies free_set_of(after).insert(r as int).contains(k) by {
        let m = choose|m: int| 0 <= m < nodes.len() && #[trigger] nodes[m].holds(k);
        if k != r {
            if nodes[0].count > 1 {
                assert(after[m].holds(k));
            } else {
                assert(m != 0);
                assert(after[m - 1].holds(k));
            }
        }
    }
}

/// Reserving from disjoint runs hands out an index that no run holds
/// afterwards: a freed one if there is one, the counter otherwise; the runs
/// stay disjoint.
pub proof fn lemma_reserve_disjoint(count: usize, nodes: Seq<AllocationNode>)
    requires
        runs_wf(nodes),
        runs_disjoint(nodes),
    ensures
        runs_disjoint(reserve_spec(count, nodes).2),
        !free_set_of(reserve_spec(count, nodes).2).contains(reserve_spec(count, nodes).0 as int),
        free_set_of(reserve_spec(count, nodes).2).subset_of(free_set_of(nodes)),
        nodes.len() > 0 ==> free_set_of(nodes).contains(reserve_spec(count, nodes).0 as int),
        nodes.len() == 0 ==> reserve_spec(count, nodes).0 == count,
{
    let (r, c, after) = reserve_spec(count, nodes);
    if nodes.len() > 0 {
        lemma_reserve_takes_freed(count, nodes);
        if nodes[0].count > 1 {
            assert forall|i: int, j: int, k: int|
                #![trigger after[i].holds(k), after[j].holds(k)]
                0 <= i < j < after.len() && after[i].holds(k) implies !after[j].holds(k) by {
                if i == 0 {
                    assert(nodes[0].holds(k));
                }
                assert(nodes[i].holds(k) ==> !nodes[j].holds(k));
            }
            assert forall|m: int| 0 <= m < after.len() implies !#[trigger] after[m].holds(r as int) by {
                if m > 0 {
                    assert(nodes[0].holds(r as int));
                }
            }
        } else {
            assert forall|i: int, j: int, k: int|
                #![trigger after[i].holds(k), after[j].holds(k)]
                0 <= i < j < after.len() && after[i].holds(k) implies !after[j].holds(k) by {
                assert(after[i] == nodes[i + 1] && after[j] == nodes[j + 1]);
                assert(nodes[i + 1].holds(k) ==> !nodes[j + 1].holds(k));
            }
            assert forall|m: int| 0 <= m < after.len() implies !#[trigger] after[m].holds(r as int) by {
                assert(after[m] == nodes[m + 1]);
                assert(nodes[0].holds(r as int));
                assert(nodes[0].holds(r as int) ==> !nodes[m + 1].holds(r as int));
            }
        }
    }
}

/// Freeing an index that no run holds keeps the runs disjoint.
pub proof fn lemma_free_disjoint(count: usize, nodes: Seq<AllocationNode>, index: usize)
    requires
        runs_wf(nodes),
        runs_disjoint(nodes),
        !free_set_of(nodes).contains(index as int),
    ensures
        runs_disjoint(free_spec(count, nodes, index).1),
{
    let single = AllocationNode { start: index, count: 1 };
    let (r, after) = free_spec(count, nodes, index);
    assert forall|m: int| 0 <= m < nodes.len() implies !#[trigger] nodes[m].holds(index as int) by {}
    if nodes.len() == 0 {
    } else if exists|j: int| first_stop(count, nodes, index as int, j) {
        let j = choose|j: int| first_stop(count, nodes, index as int, j);
        if nodes[j].touches(index as int) {
            if index == nodes[j].end() {
                let nj = AllocationNode { start: nodes[j].start, count: (nodes[j].count + 1) as usize };
                assert(after == nodes.update(j, nj));
                assert forall|a: int, b: int, k: int|
                    #![trigger after[a].holds(k), after[b].holds(k)]
                    0 <= a < b < after.len() && after[a].holds(k) implies !after[b].holds(k) by {
                    if a == j {
                        if k != index {
                            assert(nodes[j].holds(k));
                        }
                        assert(nodes[a].holds(k) ==> !nodes[b].holds(k));
                    } else if b == j {
                        if k != index && after[b].holds(k) {
                            assert(nodes[j].holds(k));
                        }
                        assert(nodes[a].holds(k) ==> !nodes[b].holds(k));
                    } else {
                        assert(nodes[a].holds(k) ==> !nodes[b].holds(k));
                    }
                }
            }
        } else if j == 0 && index > nodes[0].end() {
            assert(after == nodes.push(single));
            assert forall|a: int, b: int, k: int|
                #![trigger after[a].holds(k), after[b].holds(k)]
                0 <= a < b < after.len() && after[a].holds(k) implies !after[b].holds(k) by {
                if b < nodes.len() {
                    assert(nodes[a].holds(k) ==> !nodes[b].holds(k));
                } else {
                    assert(after[a] == nodes[a]);
                }
            }
        } else {
            assert(after == seq![single] + nodes);
            assert forall|a: int, b: int, k: int|
                #![trigger after[a].holds(k), after[b].holds(k)]
                0 <= a < b < after.len() && after[a].holds(k) implies !after[b].holds(k) by {
                assert(after[b] == nodes[b - 1]);
                if a > 0 {
                    assert(after[a] == nodes[a - 1]);
                    assert(nodes[a - 1].holds(k) ==> !nodes[b - 1].holds(k));
                }
            }
        }
    }
}

/// The indices in use for an allocator that started at `start`: those
/// below the counter that are not waiting among the freed runs.
pub open spec fn allocated_from(count: usize, nodes: Seq<AllocationNode>, start: int) -> Set<int> {
    Set::new(|k: int| start <= k < count && !free_set_of(nodes).contains(k))
}

/// The runs of an allocator that started at `start` are well formed and
/// disjoint, and hold only indices handed out before (from `start` up to
/// the counter).
pub open spec fn valid_from(count: usize, nodes: Seq<AllocationNode>, start: int) -> bool {
    &&& runs_wf(nodes)
    &&& runs_disjoint(nodes)
    &&& start <= count
    &&& forall|k: int| #[trigger] free_set_of(nodes).contains(k) ==> start <= k < count
}

/// A new allocator is valid from its start, with nothing in use.
pub proof fn lemma_new_valid(start: usize)
    ensures
        valid_from(start, Seq::<AllocationNode>::empty(), start as int),
        allocated_from(start, Seq::<AllocationNode>::empty(), start as int) == Set::<int>::empty(),
{
    assert(allocated_from(start, Seq::<AllocationNode>::empty(), start as int) =~= Set::<int>::empty());
}

/// Reserving never hands out an index in use. Let `(r, count2, nodes2)` be
/// what `reserve_index` returns and leaves on a valid allocator: `r` is at
/// least the start and not in use, afterwards exactly `r` more is in use,
/// and the allocator stays valid. Freed indices are handed out first: if
/// any is waiting, `r` is one of them and leaves the freed ones; if none
/// is, `r` is the counter, one past every index handed out so far.
pub proof fn lemma_reserve_law(count: usize, nodes: Seq<AllocationNode>, start: int)
    requires
        valid_from(count, nodes, start),
        nodes.len() == 0 ==> count < usize::MAX,
    ensures
        ({
            let (r, count2, nodes2) = reserve_spec(count, nodes);
            &&& start <= r
            &&& !allocated_from(count, nodes, start).contains(r as int)
            &&& allocated_from(count2, nodes2, start) == allocated_from(count, nodes, start).insert(r as int)
            &&& valid_from(count2, nodes2, start)
            &&& free_set_of(nodes) != Set::<int>::empty() ==> free_set_of(nodes).contains(r as int)
                && free_set_of(nodes2) == free_set_of(nodes).remove(r as int)
                && count2 == count
            &&& free_set_of(nodes) == Set::<int>::empty() ==> r == count && count2 == count + 1
        }),
{
    let (r, count2, nodes2) = reserve_spec(count, nodes);
    lemma_reserve_disjoint(count, nodes);
    let fs = free_set_of(nodes);
    let fs2 = free_set_of(nodes2);
    if nodes.len() > 0 {
        lemma_reserve_takes_freed(count, nodes);
        assert(fs2 =~= fs.remove(r as int));
        assert(fs != Set::<int>::empty()) by {
            assert(fs.contains(r as int));
        }
        assert(runs_wf(nodes2)) by {
            assert forall|j: int| 0 <= j < nodes2.len() implies {
                &&& (#[trigger] nodes2[j]).count >= 1
                &&& nodes2[j].end() <= usize::MAX
            } by {
                if nodes[0].count > 1 {
                    if j > 0 {
                        assert(nodes2[j] == nodes[j]);
                    }
                } else {
                    assert(nodes2[j] == nodes[j + 1]);
                }
            }
        }
    } else {
        assert(fs =~= Set::<int>::empty());
        assert(fs2 =~= Set::<int>::empty());
    }
    assert(allocated_from(count2, nodes2, start) =~= allocated_from(count, nodes, start).insert(r as int));
}

/// Freeing an index in use always succeeds. On a valid allocator,
/// `free_index(i)` for an index `i` in use returns `true`; afterwards `i`
/// is waiting among the freed indices, no longer in use, and the
/// allocator stays valid.
pub proof fn lemma_free_law(count: usize, nodes: Seq<AllocationNode>, start: int, index: usize)
    requires
        valid_from(count, nodes, start),
        allocated_from(count, nodes, start).contains(index as int),
    ensures
        ({
            let (ok, nodes2) = free_spec(count, nodes, index);
            &&& ok
            &&& free_set_of(nodes2) == free_set_of(nodes).insert(index as int)
            &&& allocated_from(count, nodes2, start) == allocated_from(count, nodes, start).remove(index as int)
            &&& runs_disjoint(nodes2)
            &&& forall|k: int| #[trigger] free_set_of(nodes2).contains(k) ==> start <= k < count
        }),
{
    let (ok, nodes2) = free_spec(count, nodes, index);
    assert(index < usize::MAX);
    if nodes.len() > 0 {
        lemma_first_stop_exists(count, nodes, index as int, nodes.len() - 1);
        let j = choose|j: int| first_stop(count, nodes, index as int, j);
        if nodes[j].touches(index as int) && index as int != nodes[j].end() {
            assert(nodes[j].holds(index as int));
            assert(free_set_of(nodes).contains(index as int));
        }
    }
    lemma_free_adds_index(count, nodes, index);
    lemma_free_disjoint(count, nodes, index);
    assert(allocated_from(count, nodes2, start) =~= allocated_from(count, nodes, start).remove(index as int));
}

/// Where a run stops a freed index, some run is the first to do so.
proof fn lemma_first_stop_exists(count: usize, nodes: Seq<AllocationNode>, index: int, j: int)
    requires
        0 <= j < nodes.len(),
        stops_at(count, nodes, index, j),
    ensures
        exists|i: int| first_stop(count, nodes, index, i),
    decreases j,
{
    if exists|i: int| 0 <= i < j && #[trigger] stops_at(count, nodes, index, i) {
        let i = choose|i: int| 0 <= i < j && #[trigger] stops_at(count, nodes, index, i);
        lemma_first_stop_exists(count, nodes, index, i);
    } else {
        assert(first_stop(count, nodes, index, j));
    }
}

} // verus!
