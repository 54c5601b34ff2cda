//! Traversals of a generalized map: orbits, cells, components, incident and
//! adjacent cells. Each traversal is computed in full when it is created and
//! then handed out one dart at a time.

use vstd::prelude::*;
use crate::index::DartIndex;
use crate::gmap::NGMap;
use crate::dart::{vec_repeat, repeat};
use crate::orbits::{get_seq, seq_without};
use crate::inspect::DartInspector;

verus! {

/// The darts of a sequence, as a set of integers.
pub open spec fn ids(s: Seq<DartIndex>) -> Set<int> {
    Set::new(|x: int| exists|i: int| 0 <= i < s.len() && (#[trigger] s[i]).0 == x)
}

/// Distinct darts below `n` number at most `n`.
pub proof fn lemma_distinct_bound(a: Seq<DartIndex>, b: Seq<DartIndex>, n: int)
    requires
        n >= 0,
        a.no_duplicates(),
        b.no_duplicates(),
        forall|i: int, j: int| 0 <= i < a.len() && 0 <= j < b.len() ==> a[i] != b[j],
        forall|i: int| 0 <= i < a.len() ==> 0 <= (#[trigger] a[i]).0 < n,
        forall|i: int| 0 <= i < b.len() ==> 0 <= (#[trigger] b[i]).0 < n,
    ensures
        a.len() + b.len() <= n,
{
    let c = a + b;
    let m = c.map_values(|d: DartIndex| d.0 as int);
    assert forall|i: int, j: int| 0 <= i < m.len() && 0 <= j < m.len() && i != j implies m[i] != m[j] by {
        if i < a.len() && j < a.len() {
            assert(c[i] == a[i] && c[j] == a[j]);
        } else if i >= a.len() && j >= a.len() {
            assert(c[i] == b[i - a.len()] && c[j] == b[j - a.len()]);
        } else if i < a.len() {
            assert(c[i] == a[i] && c[j] == b[j - a.len()]);
        } else {
            assert(c[j] == a[j] && c[i] == b[i - a.len()]);
        }
    }
    assert(m.no_duplicates());
    m.unique_seq_to_set();
    vstd::set_lib::lemma_int_range(0, n);
    assert forall|x: int| m.to_set().contains(x) implies vstd::set_lib::set_int_range(0, n).contains(x) by {
        let i = choose|i: int| 0 <= i < m.len() && m[i] == x;
        if i < a.len() {
            assert(c[i] == a[i]);
        } else {
            assert(c[i] == b[i - a.len()]);
        }
    }
    vstd::set_lib::lemma_len_subset(m.to_set(), vstd::set_lib::set_int_range(0, n));
}

/// The darts of a sequence, as integers.
pub open spec fn to_ints(s: Seq<DartIndex>) -> Seq<int> {
    s.map_values(|d: DartIndex| d.0 as int)
}

impl<const N: usize, const NA: usize, const NL: usize> NGMap<N, NA, NL> {
    /// `s` is closed under the alpha links listed in `iseq`, except links
    /// to dart 0.
    pub open spec fn closed_under(&self, s: Set<int>, iseq: Seq<usize>) -> bool {
        forall|x: int, j: int|
            s.contains(x) && 0 <= j < iseq.len() ==> {
                let y = #[trigger] self.alpha(x, iseq[j] as int);
                y == x || y == 0 || s.contains(y)
            }
    }

    /// `r` lists, without repetition and starting with `dart`, the orbit of
    /// `dart` under the alpha links in `iseq`: the smallest set that holds
    /// `dart` and is closed under those links (dart 0 is never entered).
    pub open spec fn is_orbit(&self, dart: int, iseq: Seq<usize>, r: Seq<DartIndex>) -> bool {
        &&& r.len() >= 1
        &&& r[0].0 == dart
        &&& r.no_duplicates()
        &&& forall|i: int| 0 <= i < r.len() ==> (#[trigger] r[i]).0 < self.len()
        &&& forall|i: int| 1 <= i < r.len() ==> (#[trigger] r[i]).0 != 0
        &&& self.closed_under(ids(r), iseq)
        &&& forall|s: Set<int>| #[trigger] self.closed_under(s, iseq) && s.contains(dart) ==> ids(r).subset_of(s)
    }

    /// The orbit of `d` under the alpha links in `iseq`, as a set: the darts
    /// that every closed set holding `d` holds.
    pub open spec fn orbit_set(&self, d: int, iseq: Seq<usize>) -> Set<int> {
        Set::new(|x: int| forall|s: Set<int>| #[trigger] self.closed_under(s, iseq) && s.contains(d) ==> s.contains(x))
    }

    /// An orbit listing holds exactly the orbit set.
    pub proof fn lemma_orbit_ids(&self, d: int, iseq: Seq<usize>, r: Seq<DartIndex>)
        requires
            self.is_orbit(d, iseq, r),
        ensures
            ids(r) == self.orbit_set(d, iseq),
    {
        assert(ids(r).contains(d)) by {
            assert(r[0].0 == d);
        }
        assert forall|x: int| ids(r).contains(x) <==> self.orbit_set(d, iseq).contains(x) by {
            if ids(r).contains(x) {
                assert forall|s: Set<int>| #[trigger] self.closed_under(s, iseq) && s.contains(d) implies s.contains(x) by {
                    assert(ids(r).subset_of(s));
                }
            }
            if self.orbit_set(d, iseq).contains(x) {
                assert(self.closed_under(ids(r), iseq));
            }
        }
        assert(ids(r) =~= self.orbit_set(d, iseq));
    }

    /// Maps with the same alpha links in `iseq` have the same orbits under
    /// them.
    pub proof fn lemma_same_alphas_same_orbits(&self, other: &Self, iseq: Seq<usize>)
        requires
            self.wf(),
            self.len() == other.len(),
            forall|d: int, j: int| 0 <= d < self.len() && 0 <= j < iseq.len() ==> #[trigger] self.alpha(d, iseq[j] as int) == other.alpha(d, iseq[j] as int),
            forall|j: int| 0 <= j < iseq.len() ==> #[trigger] iseq[j] < N,
        ensures
            forall|d: int| 0 <= d < self.len() ==> #[trigger] self.orbit_set(d, iseq) == other.orbit_set(d, iseq),
    {
        assert forall|d: int| 0 <= d < self.len() implies #[trigger] self.orbit_set(d, iseq) == other.orbit_set(d, iseq) by {
            assert forall|x: int| self.orbit_set(d, iseq).contains(x) implies other.orbit_set(d, iseq).contains(x) by {
                assert forall|s: Set<int>| #[trigger] other.closed_under(s, iseq) && s.contains(d) implies s.contains(x) by {
                    let s2 = Set::new(|y: int| s.contains(y) && 0 <= y < self.len());
                    assert forall|y: int, j: int| s2.contains(y) && 0 <= j < iseq.len() implies {
                        let z = #[trigger] self.alpha(y, iseq[j] as int);
                        z == y || z == 0 || s2.contains(z)
                    } by {
                        assert(self.alpha(y, iseq[j] as int) == other.alpha(y, iseq[j] as int));
                        assert(self.alpha(y, iseq[j] as int) < self.len());
                    }
                    assert(self.closed_under(s2, iseq));
                    assert(s2.contains(d));
                }
            }
            assert forall|x: int| other.orbit_set(d, iseq).contains(x) implies self.orbit_set(d, iseq).contains(x) by {
                assert forall|s: Set<int>| #[trigger] self.closed_under(s, iseq) && s.contains(d) implies s.contains(x) by {
                    let s2 = Set::new(|y: int| s.contains(y) && 0 <= y < self.len());
                    assert forall|y: int, j: int| s2.contains(y) && 0 <= j < iseq.len() implies {
                        let z = #[trigger] other.alpha(y, iseq[j] as int);
                        z == y || z == 0 || s2.contains(z)
                    } by {
                        assert(self.alpha(y, iseq[j] as int) == other.alpha(y, iseq[j] as int));
                        assert(self.alpha(y, iseq[j] as int) < self.len());
                    }
                    assert(other.closed_under(s2, iseq));
                    assert(s2.contains(d));
                }
            }
            assert(self.orbit_set(d, iseq) =~= other.orbit_set(d, iseq));
        }
    }

    /// One dart per orbit: walking through `ds`, a dart is kept when it is
    /// neither dart 0 nor in the orbit of a dart kept before it.
    pub open spec fn reps(&self, ds: Seq<int>, iseq: Seq<usize>) -> Seq<int>
        decreases ds.len(),
    {
        if ds.len() == 0 {
            Seq::empty()
        } else {
            let prev = self.reps(ds.drop_last(), iseq);
            let d = ds.last();
            if d == 0 || self.covered(prev, d, iseq) {
                prev
            } else {
                prev.push(d)
            }
        }
    }

    /// `d` lies in the orbit of one of `reps`.
    pub open spec fn covered(&self, reps: Seq<int>, d: int, iseq: Seq<usize>) -> bool {
        exists|j: int| 0 <= j < reps.len() && #[trigger] self.orbit_set(reps[j], iseq).contains(d)
    }

    /// One dart per orbit: the darts kept from `ds` are darts of `ds` other
    /// than dart 0, none lies in the orbit of one kept before it, and every
    /// dart of `ds` other than dart 0 lies in the orbit of a kept one.
    pub proof fn lemma_reps_one_per_orbit(&self, ds: Seq<int>, iseq: Seq<usize>)
        ensures
            forall|i: int| 0 <= i < self.reps(ds, iseq).len() ==> #[trigger] self.reps(ds, iseq)[i] != 0
                && ds.contains(self.reps(ds, iseq)[i]),
            forall|i: int, k: int| 0 <= i < k < self.reps(ds, iseq).len()
                ==> !#[trigger] self.orbit_set(self.reps(ds, iseq)[i], iseq).contains(#[trigger] self.reps(ds, iseq)[k]),
            forall|x: int| #[trigger] ds.contains(x) && x != 0 ==> self.covered(self.reps(ds, iseq), x, iseq),
        decreases ds.len(),
    {
        if ds.len() > 0 {
            let pre = ds.drop_last();
            self.lemma_reps_one_per_orbit(pre, iseq);
            let prev = self.reps(pre, iseq);
            let r = self.reps(ds, iseq);
            let d = ds.last();
            assert forall|i: int| 0 <= i < r.len() implies #[trigger] r[i] != 0 && ds.contains(r[i]) by {
                if i < prev.len() {
                    assert(r[i] == prev[i]);
                    let t = choose|t: int| 0 <= t < pre.len() && pre[t] == prev[i];
                    assert(ds[t] == pre[t]);
                } else {
                    assert(ds[ds.len() - 1] == d);
                }
            }
            assert forall|i: int, k: int| 0 <= i < k < r.len() implies !#[trigger] self.orbit_set(r[i], iseq).contains(#[trigger] r[k]) by {
                assert(r[i] == prev[i]);
                if k < prev.len() {
                    assert(r[k] == prev[k]);
                } else {
                    assert(!self.covered(prev, d, iseq));
                }
            }
            assert forall|x: int| #[trigger] ds.contains(x) && x != 0 implies self.covered(r, x, iseq) by {
                let t = choose|t: int| 0 <= t < ds.len() && ds[t] == x;
                if t < ds.len() - 1 {
                    assert(pre[t] == x);
                    assert(pre.contains(x));
                    let jj = choose|jj: int| 0 <= jj < prev.len() && #[trigger] self.orbit_set(prev[jj], iseq).contains(x);
                    assert(r[jj] == prev[jj]);
                } else if self.covered(prev, d, iseq) {
                    let jj = choose|jj: int| 0 <= jj < prev.len() && #[trigger] self.orbit_set(prev[jj], iseq).contains(d);
                    assert(r[jj] == prev[jj]);
                } else {
                    assert(r[r.len() - 1] == d);
                    assert(self.orbit_set(d, iseq).contains(d)) by {
                        assert forall|s: Set<int>| #[trigger] self.closed_under(s, iseq) && s.contains(d) implies s.contains(d) by {}
                    }
                }
            }
        }
    }

    /// The darts in use, in increasing order, among the slots `1..n`.
    pub open spec fn init_darts_below(&self, n: int) -> Seq<int>
        decreases n,
    {
        if n <= 1 {
            Seq::empty()
        } else if self.is_init(n - 1) {
            self.init_darts_below(n - 1).push(n - 1)
        } else {
            self.init_darts_below(n - 1)
        }
    }

    /// All darts in use, in increasing order.
    pub open spec fn all_darts(&self) -> Seq<int> {
        self.init_darts_below(self.len())
    }


    /// The darts in use below `n` are listed in increasing order, each of
    /// them once.
    pub proof fn lemma_init_darts_below(&self, n: int)
        ensures
            forall|i: int, j: int| 0 <= i < j < self.init_darts_below(n).len() ==> self.init_darts_below(n)[i] < self.init_darts_below(n)[j],
            forall|i: int| 0 <= i < self.init_darts_below(n).len() ==> {
                &&& 1 <= #[trigger] self.init_darts_below(n)[i] < n
                &&& self.is_init(self.init_darts_below(n)[i])
            },
            forall|d: int| 1 <= d < n && self.is_init(d) ==> exists|i: int| 0 <= i < self.init_darts_below(n).len() && #[trigger] self.init_darts_below(n)[i] == d,
        decreases n,
    {
        if n > 1 {
            self.lemma_init_darts_below(n - 1);
            let prev = self.init_darts_below(n - 1);
            if self.is_init(n - 1) {
                let cur = prev.push(n - 1);
                assert(self.init_darts_below(n) == cur);
                assert forall|d: int| 1 <= d < n && self.is_init(d) implies exists|i: int| 0 <= i < cur.len() && #[trigger] cur[i] == d by {
                    if d == n - 1 {
                        assert(cur[prev.len() as int] == d);
                    } else {
                        let i = choose|i: int| 0 <= i < prev.len() && #[trigger] prev[i] == d;
                        assert(cur[i] == d);
                    }
                }
            } else {
                assert(self.init_darts_below(n) == prev);
                assert forall|d: int| 1 <= d < n && self.is_init(d) implies exists|i: int| 0 <= i < prev.len() && #[trigger] prev[i] == d by {
                    assert(d < n - 1);
                }
            }
        }
    }


    /// Representatives depend only on the orbits of the listed darts, and
    /// there are no more of them than listed darts; each is a listed dart.
    pub proof fn lemma_reps_same(&self, other: &Self, ds: Seq<int>, iseq: Seq<usize>)
        requires
            forall|i: int| 0 <= i < ds.len() ==> #[trigger] self.orbit_set(ds[i], iseq) == other.orbit_set(ds[i], iseq),
        ensures
            self.reps(ds, iseq) == other.reps(ds, iseq),
            self.reps(ds, iseq).len() <= ds.len(),
            forall|j: int| 0 <= j < self.reps(ds, iseq).len() ==> exists|i: int| 0 <= i < ds.len() && ds[i] == #[trigger] self.reps(ds, iseq)[j],
        decreases ds.len(),
    {
        if ds.len() > 0 {
            let pre = ds.drop_last();
            assert forall|i: int| 0 <= i < pre.len() implies #[trigger] self.orbit_set(pre[i], iseq) == other.orbit_set(pre[i], iseq) by {
                assert(pre[i] == ds[i]);
            }
            self.lemma_reps_same(other, pre, iseq);
            let prev = self.reps(pre, iseq);
            let d = ds.last();
            assert(self.covered(prev, d, iseq) == other.covered(prev, d, iseq)) by {
                if self.covered(prev, d, iseq) {
                    let j = choose|j: int| 0 <= j < prev.len() && #[trigger] self.orbit_set(prev[j], iseq).contains(d);
                    let i = choose|i: int| 0 <= i < pre.len() && pre[i] == prev[j];
                    assert(self.orbit_set(pre[i], iseq) == other.orbit_set(pre[i], iseq));
                    assert(other.orbit_set(prev[j], iseq).contains(d));
                }
                if other.covered(prev, d, iseq) {
                    let j = choose|j: int| 0 <= j < prev.len() && #[trigger] other.orbit_set(prev[j], iseq).contains(d);
                    let i = choose|i: int| 0 <= i < pre.len() && pre[i] == prev[j];
                    assert(self.orbit_set(pre[i], iseq) == other.orbit_set(pre[i], iseq));
                    assert(self.orbit_set(prev[j], iseq).contains(d));
                }
            }
            let cur = self.reps(ds, iseq);
            assert forall|j: int| 0 <= j < cur.len() implies exists|i: int| 0 <= i < ds.len() && ds[i] == #[trigger] cur[j] by {
                if j < prev.len() {
                    let i = choose|i: int| 0 <= i < pre.len() && pre[i] == prev[j];
                    assert(ds[i] == cur[j]);
                } else {
                    assert(ds[ds.len() - 1] == cur[j]);
                }
            }
        }
    }

    /// The darts of the orbit of `dart` under the alpha links listed in
    /// `iseq`, by depth-first search.
    pub fn orbit_darts(&self, dart: DartIndex, iseq: &[usize]) -> (r: Vec<DartIndex>)
        requires
            self.wf(),
            dart.0 < self.len(),
            forall|j: int| 0 <= j < iseq@.len() ==> #[trigger] iseq@[j] < N,
        ensures
            self.is_orbit(dart.0 as int, iseq@, r@),
    {
        let len = self.darts.len();
        let mut visited: Vec<bool> = vec_repeat(false, len);
        visited.set(0, true);
        visited.set(dart.0, true);
        let mut stack: Vec<DartIndex> = Vec::new();
        stack.push(dart);
        let mut res: Vec<DartIndex> = Vec::new();
        let ghost d = dart.0 as int;
        assert(stack@[0] == dart);
        assert(ids(stack@) =~= set![d]);
        while stack.len() > 0
            invariant
                self.wf(),
                len == self.len(),
                d == dart.0,
                d < len,
                forall|j: int| 0 <= j < iseq@.len() ==> #[trigger] iseq@[j] < N,
                visited@.len() == len,
                forall|x: int| 0 <= x < len ==> (#[trigger] visited@[x] <==> (x == 0 || ids(res@).contains(x) || ids(stack@).contains(x))),
                res@.no_duplicates(),
                stack@.no_duplicates(),
                forall|i: int, j: int| 0 <= i < res@.len() && 0 <= j < stack@.len() ==> res@[i] != stack@[j],
                forall|i: int| 0 <= i < res@.len() ==> (#[trigger] res@[i]).0 < len && (res@[i].0 != 0 || res@[i].0 == d),
                forall|i: int| 0 <= i < stack@.len() ==> (#[trigger] stack@[i]).0 < len && (stack@[i].0 != 0 || stack@[i].0 == d),
                res@.len() >= 1 ==> res@[0].0 == d,
                res@.len() == 0 ==> stack@ == seq![dart],
                forall|i: int| 1 <= i < res@.len() ==> (#[trigger] res@[i]).0 != d,
                forall|i: int| 0 <= i < stack@.len() && res@.len() >= 1 ==> (#[trigger] stack@[i]).0 != d,
                forall|x: int, j: int|
                    ids(res@).contains(x) && 0 <= j < iseq@.len() ==> {
                        let y = #[trigger] self.alpha(x, iseq@[j] as int);
                        y == x || visited@[y]
                    },
                forall|s: Set<int>| #[trigger] self.closed_under(s, iseq@) && s.contains(d) ==> ids(res@).subset_of(s) && ids(stack@).subset_of(s),
            decreases len - res@.len() - stack@.len(), stack@.len(),
        {
            proof {
                lemma_distinct_bound(res@, stack@, len as int);
            }
            let ghost r0 = res@.len();
            let ghost s0 = stack@.len();
            let ghost stack_full = stack@;
            let cur = stack.pop().unwrap();
            let ghost res_before = res@;
            res.push(cur);
            proof {
                assert(stack_full == stack@.push(cur));
                assert forall|x: int| #[trigger] ids(stack_full).contains(x) <==> (ids(stack@).contains(x) || x == cur.0) by {
                    if ids(stack_full).contains(x) {
                        let i = choose|i: int| 0 <= i < stack_full.len() && (#[trigger] stack_full[i]).0 == x;
                        if i < stack@.len() {
                            assert(stack_full[i] == stack@[i]);
                        }
                    }
                    if ids(stack@).contains(x) {
                        let i = choose|i: int| 0 <= i < stack@.len() && (#[trigger] stack@[i]).0 == x;
                        assert(stack_full[i] == stack@[i]);
                    }
                    if x == cur.0 {
                        assert(stack_full[stack_full.len() - 1] == cur);
                    }
                }
                assert forall|i: int| 0 <= i < stack@.len() implies stack@[i] != cur by {
                    assert(stack_full[i] == stack@[i]);
                    assert(stack_full[stack_full.len() - 1] == cur);
                }
                assert forall|x: int| #[trigger] ids(res@).contains(x) <==> (ids(res_before).contains(x) || x == cur.0) by {
                    if ids(res@).contains(x) {
                        let i = choose|i: int| 0 <= i < res@.len() && (#[trigger] res@[i]).0 == x;
                        if i < res_before.len() {
                            assert(res_before[i] == res@[i]);
                        }
                    }
                    if ids(res_before).contains(x) {
                        let i = choose|i: int| 0 <= i < res_before.len() && (#[trigger] res_before[i]).0 == x;
                        assert(res@[i] == res_before[i]);
                    }
                    if x == cur.0 {
                        assert(res@[res@.len() - 1] == cur);
                    }
                }
            }
            let mut k: usize = 0;
            while k < iseq.len()
                invariant
                    self.wf(),
                    len == self.len(),
                    d == dart.0,
                    d < len,
                    forall|j: int| 0 <= j < iseq@.len() ==> #[trigger] iseq@[j] < N,
                    visited@.len() == len,
                    cur.0 < len,
                    ids(res@).contains(cur.0 as int),
                    k <= iseq@.len(),
                    res@.len() == r0 + 1,
                    stack@.len() >= s0 - 1,
                    r0 + s0 <= len,
                    forall|x: int| 0 <= x < len ==> (#[trigger] visited@[x] <==> (x == 0 || ids(res@).contains(x) || ids(stack@).contains(x))),
                    res@.no_duplicates(),
                    stack@.no_duplicates(),
                    forall|i: int, j: int| 0 <= i < res@.len() && 0 <= j < stack@.len() ==> res@[i] != stack@[j],
                    forall|i: int| 0 <= i < res@.len() ==> (#[trigger] res@[i]).0 < len && (res@[i].0 != 0 || res@[i].0 == d),
                    forall|i: int| 0 <= i < stack@.len() ==> (#[trigger] stack@[i]).0 < len && (stack@[i].0 != 0 || stack@[i].0 == d),
                    res@.len() >= 1,
                    res@[0].0 == d,
                    forall|i: int| 1 <= i < res@.len() ==> (#[trigger] res@[i]).0 != d,
                    forall|i: int| 0 <= i < stack@.len() ==> (#[trigger] stack@[i]).0 != d,
                    forall|x: int, j: int|
                        ids(res@).contains(x) && x != cur.0 && 0 <= j < iseq@.len() ==> {
                            let y = #[trigger] self.alpha(x, iseq@[j] as int);
                            y == x || visited@[y]
                        },
                    forall|j: int|
                        0 <= j < k ==> {
                            let y = #[trigger] self.alpha(cur.0 as int, iseq@[j] as int);
                            y == cur.0 || visited@[y]
                        },
                    forall|s: Set<int>| #[trigger] self.closed_under(s, iseq@) && s.contains(d) ==> ids(res@).subset_of(s) && ids(stack@).subset_of(s),
                decreases iseq@.len() - k,
            {
                let next = self.darts[cur.0].get_alpha(iseq[k]);
                assert(next.0 == self.alpha(cur.0 as int, iseq@[k as int] as int));
                assert(self.alpha(cur.0 as int, iseq@[k as int] as int) < self.len());
                if next.0 != cur.0 && !visited[next.0] {
                    let ghost stack_before = stack@;
                    visited.set(next.0, true);
                    stack.push(next);
                    proof {
                        assert forall|x: int| #[trigger] ids(stack@).contains(x) <==> (ids(stack_before).contains(x) || x == next.0) by {
                            if ids(stack@).contains(x) {
                                let i = choose|i: int| 0 <= i < stack@.len() && (#[trigger] stack@[i]).0 == x;
                                if i < stack_before.len() {
                                    assert(stack_before[i] == stack@[i]);
                                }
                            }
                            if ids(stack_before).contains(x) {
                                let i = choose|i: int| 0 <= i < stack_before.len() && (#[trigger] stack_before[i]).0 == x;
                                assert(stack@[i] == stack_before[i]);
                            }
                            if x == next.0 {
                                assert(stack@[stack@.len() - 1] == next);
                            }
                        }
                        assert forall|i: int| 0 <= i < res@.len() implies res@[i] != next by {
                            if res@[i] == next {
                                assert(ids(res@).contains(next.0 as int));
                            }
                        }
                        assert forall|i: int| 0 <= i < stack_before.len() implies stack_before[i] != next by {
                            if stack_before[i] == next {
                                assert(ids(stack_before).contains(next.0 as int));
                            }
                        }
                        assert forall|s: Set<int>| #[trigger] self.closed_under(s, iseq@) && s.contains(d) implies ids(res@).subset_of(s) && ids(stack@).subset_of(s) by {
                            assert(s.contains(cur.0 as int));
                            let y = self.alpha(cur.0 as int, iseq@[k as int] as int);
                            assert(y == cur.0 || y == 0 || s.contains(y));
                        }
                    }
                }
                k = k + 1;
            }
            proof {
                lemma_distinct_bound(res@, stack@, len as int);
            }
        }
        proof {
            assert forall|x: int, j: int| ids(res@).contains(x) && 0 <= j < iseq@.len() implies {
                let y = #[trigger] self.alpha(x, iseq@[j] as int);
                y == x || y == 0 || ids(res@).contains(y)
            } by {
                let y = self.alpha(x, iseq@[j] as int);
                let i = choose|i: int| 0 <= i < res@.len() && (#[trigger] res@[i]).0 == x;
                assert(res@[i].0 < len);
                assert(y < len);
                assert(!ids(stack@).contains(y));
            }
        }
        res
    }
}

impl<const N: usize, const NA: usize, const NL: usize> NGMap<N, NA, NL> {
    /// All darts in use, in increasing order.
    pub fn all_darts_vec(&self) -> (r: Vec<DartIndex>)
        requires
            self.wf(),
        ensures
            to_ints(r@) == self.all_darts(),
            forall|i: int| 0 <= i < r@.len() ==> 1 <= (#[trigger] r@[i]).0 < self.len() && self.is_init(r@[i].0 as int),
    {
        let len = self.darts.len();
        let mut r: Vec<DartIndex> = Vec::new();
        let mut k: usize = 1;
        while k < len
            invariant
                1 <= k <= len,
                len == self.len(),
                to_ints(r@) == self.init_darts_below(k as int),
                forall|i: int| 0 <= i < r@.len() ==> 1 <= (#[trigger] r@[i]).0 < k && self.is_init(r@[i].0 as int),
            decreases len - k,
        {
            if self.darts[k].is_init() {
                r.push(DartIndex(k));
            }
            proof {
                assert(to_ints(r@) =~= self.init_darts_below(k + 1));
            }
            k = k + 1;
        }
        r
    }

    /// One dart per orbit under the alpha links in `iseq`, walking through
    /// `ds` (see `reps`).
    pub fn reps_of(&self, ds: &Vec<DartIndex>, iseq: &[usize]) -> (r: Vec<DartIndex>)
        requires
            self.wf(),
            forall|i: int| 0 <= i < ds@.len() ==> (#[trigger] ds@[i]).0 < self.len(),
            forall|j: int| 0 <= j < iseq@.len() ==> #[trigger] iseq@[j] < N,
        ensures
            to_ints(r@) == self.reps(to_ints(ds@), iseq@),
            forall|i: int| 0 <= i < r@.len() ==> (#[trigger] r@[i]).0 < self.len(),
    {
        let len = self.darts.len();
        let mut covered: Vec<bool> = vec_repeat(false, len);
        covered.set(0, true);
        let mut r: Vec<DartIndex> = Vec::new();
        let mut k: usize = 0;
        proof {
            assert(to_ints(ds@).take(0) =~= Seq::<int>::empty());
        }
        while k < ds.len()
            invariant
                self.wf(),
                len == self.len(),
                k <= ds@.len(),
                forall|i: int| 0 <= i < ds@.len() ==> (#[trigger] ds@[i]).0 < self.len(),
                forall|j: int| 0 <= j < iseq@.len() ==> #[trigger] iseq@[j] < N,
                covered@.len() == len,
                forall|x: int| 0 <= x < len ==> (#[trigger] covered@[x] <==> (x == 0 || self.covered(to_ints(r@), x, iseq@))),
                to_ints(r@) == self.reps(to_ints(ds@).take(k as int), iseq@),
                forall|i: int| 0 <= i < r@.len() ==> (#[trigger] r@[i]).0 < self.len(),
            decreases ds@.len() - k,
        {
            let d = ds[k];
            proof {
                assert(to_ints(ds@).take(k + 1).drop_last() =~= to_ints(ds@).take(k as int));
                assert(to_ints(ds@).take(k + 1).last() == d.0);
            }
            if !covered[d.0] {
                let orb = self.orbit_darts(d, iseq);
                proof {
                    self.lemma_orbit_ids(d.0 as int, iseq@, orb@);
                }
                let ghost prev = to_ints(r@);
                let mut m: usize = 0;
                while m < orb.len()
                    invariant
                        self.wf(),
                        len == self.len(),
                        covered@.len() == len,
                        m <= orb@.len(),
                        prev == to_ints(r@),
                        ids(orb@) == self.orbit_set(d.0 as int, iseq@),
                        forall|i: int| 0 <= i < orb@.len() ==> (#[trigger] orb@[i]).0 < self.len(),
                        forall|x: int| 0 <= x < len ==> (#[trigger] covered@[x] <==> (x == 0 || self.covered(prev, x, iseq@)
                            || exists|i: int| 0 <= i < m && (#[trigger] orb@[i]).0 == x)),
                    decreases orb@.len() - m,
                {
                    let e = orb[m];
                    covered.set(e.0, true);
                    m = m + 1;
                    proof {
                        assert forall|x: int| 0 <= x < len implies (#[trigger] covered@[x] <==> (x == 0 || self.covered(prev, x, iseq@)
                            || exists|i: int| 0 <= i < m && (#[trigger] orb@[i]).0 == x)) by {
                            if x == e.0 {
                                assert(orb@[m - 1].0 == x);
                            }
                        }
                    }
                }
                r.push(d);
                proof {
                    let now = to_ints(r@);
                    assert(now =~= prev.push(d.0 as int));
                    assert forall|x: int| 0 <= x < len implies (#[trigger] covered@[x] <==> (x == 0 || self.covered(now, x, iseq@))) by {
                        if self.covered(now, x, iseq@) {
                            let j = choose|j: int| 0 <= j < now.len() && #[trigger] self.orbit_set(now[j], iseq@).contains(x);
                            if j < prev.len() {
                                assert(now[j] == prev[j]);
                                assert(self.covered(prev, x, iseq@));
                            } else {
                                assert(ids(orb@).contains(x));
                                let i = choose|i: int| 0 <= i < orb@.len() && (#[trigger] orb@[i]).0 == x;
                                assert(covered@[x]);
                            }
                        }
                        if covered@[x] && x != 0 {
                            if self.covered(prev, x, iseq@) {
                                let j = choose|j: int| 0 <= j < prev.len() && #[trigger] self.orbit_set(prev[j], iseq@).contains(x);
                                assert(now[j] == prev[j]);
                                assert(self.covered(now, x, iseq@));
                            } else {
                                let i = choose|i: int| 0 <= i < orb@.len() && (#[trigger] orb@[i]).0 == x;
                                assert(ids(orb@).contains(x));
                                assert(now[prev.len() as int] == d.0);
                                assert(self.orbit_set(now[prev.len() as int], iseq@).contains(x));
                                assert(self.covered(now, x, iseq@));
                            }
                        }
                    }
                }
            }
            k = k + 1;
        }
        proof {
            assert(to_ints(ds@).take(ds@.len() as int) =~= to_ints(ds@));
        }
        r
    }
}


/// Iterates over the darts of the orbit of a dart under a list of alpha links.
pub struct IteratorOrbit<'a, const N: usize, const NA: usize, const NL: usize> {
    pub map: &'a NGMap<N, NA, NL>,
    pub items: Vec<DartIndex>,
    pub pos: usize,
}

impl<'a, const N: usize, const NA: usize, const NL: usize> IteratorOrbit<'a, N, NA, NL> {
    /// The next dart, or `None` once all have been handed out.
    pub fn next(&mut self) -> (r: Option<DartIndex>)
        ensures
            final(self).items@ == old(self).items@,
            final(self).map == old(self).map,
            old(self).pos < old(self).items@.len() ==> r == Some(old(self).items@[old(self).pos as int]) && final(self).pos == old(self).pos + 1,
            old(self).pos >= old(self).items@.len() ==> r is None && final(self).pos == old(self).pos,
    {
        if self.pos < self.items.len() {
            let d = self.items[self.pos];
            self.pos = self.pos + 1;
            Some(d)
        } else {
            None
        }
    }
}

/// Iterates over the darts of the i-cell of a dart: its orbit under all alpha links except alpha(i).
pub struct IteratorDartsInCell<'a, const N: usize, const NA: usize, const NL: usize> {
    pub map: &'a NGMap<N, NA, NL>,
    pub items: Vec<DartIndex>,
    pub pos: usize,
}

impl<'a, const N: usize, const NA: usize, const NL: usize> IteratorDartsInCell<'a, N, NA, NL> {
    /// The next dart, or `None` once all have been handed out.
    pub fn next(&mut self) -> (r: Option<DartIndex>)
        ensures
            final(self).items@ == old(self).items@,
            final(self).map == old(self).map,
            old(self).pos < old(self).items@.len() ==> r == Some(old(self).items@[old(self).pos as int]) && final(self).pos == old(self).pos + 1,
            old(self).pos >= old(self).items@.len() ==> r is None && final(self).pos == old(self).pos,
    {
        if self.pos < self.items.len() {
            let d = self.items[self.pos];
            self.pos = self.pos + 1;
            Some(d)
        } else {
            None
        }
    }
}

/// Iterates over the i-cells of the map, one dart per cell.
pub struct IteratorDartPerCell<'a, const N: usize, const NA: usize, const NL: usize> {
    pub map: &'a NGMap<N, NA, NL>,
    pub items: Vec<DartIndex>,
    pub pos: usize,
}

impl<'a, const N: usize, const NA: usize, const NL: usize> IteratorDartPerCell<'a, N, NA, NL> {
    /// The next dart, or `None` once all have been handed out.
    pub fn next(&mut self) -> (r: Option<DartIndex>)
        ensures
            final(self).items@ == old(self).items@,
            final(self).map == old(self).map,
            old(self).pos < old(self).items@.len() ==> r == Some(old(self).items@[old(self).pos as int]) && final(self).pos == old(self).pos + 1,
            old(self).pos >= old(self).items@.len() ==> r is None && final(self).pos == old(self).pos,
    {
        if self.pos < self.items.len() {
            let d = self.items[self.pos];
            self.pos = self.pos + 1;
            Some(d)
        } else {
            None
        }
    }
}

/// Iterates over the i-cells incident to the j-cell of a dart, one dart per i-cell.
pub struct IteratorDartPerCellIncident<'a, const N: usize, const NA: usize, const NL: usize> {
    pub map: &'a NGMap<N, NA, NL>,
    pub items: Vec<DartIndex>,
    pub pos: usize,
    pub source: Ghost<Seq<DartIndex>>,
}

impl<'a, const N: usize, const NA: usize, const NL: usize> IteratorDartPerCellIncident<'a, N, NA, NL> {
    /// The next dart, or `None` once all have been handed out.
    pub fn next(&mut self) -> (r: Option<DartIndex>)
        ensures
            final(self).items@ == old(self).items@,
            final(self).map == old(self).map,
            old(self).pos < old(self).items@.len() ==> r == Some(old(self).items@[old(self).pos as int]) && final(self).pos == old(self).pos + 1,
            old(self).pos >= old(self).items@.len() ==> r is None && final(self).pos == old(self).pos,
    {
        if self.pos < self.items.len() {
            let d = self.items[self.pos];
            self.pos = self.pos + 1;
            Some(d)
        } else {
            None
        }
    }
}

/// Iterates over the i-cells adjacent to the i-cell of a dart, one dart per cell.
pub struct IteratorDartPerCellAdjacent<'a, const N: usize, const NA: usize, const NL: usize> {
    pub map: &'a NGMap<N, NA, NL>,
    pub items: Vec<DartIndex>,
    pub pos: usize,
    pub source: Ghost<Seq<DartIndex>>,
}

impl<'a, const N: usize, const NA: usize, const NL: usize> IteratorDartPerCellAdjacent<'a, N, NA, NL> {
    /// The next dart, or `None` once all have been handed out.
    pub fn next(&mut self) -> (r: Option<DartIndex>)
        ensures
            final(self).items@ == old(self).items@,
            final(self).map == old(self).map,
            old(self).pos < old(self).items@.len() ==> r == Some(old(self).items@[old(self).pos as int]) && final(self).pos == old(self).pos + 1,
            old(self).pos >= old(self).items@.len() ==> r is None && final(self).pos == old(self).pos,
    {
        if self.pos < self.items.len() {
            let d = self.items[self.pos];
            self.pos = self.pos + 1;
            Some(d)
        } else {
            None
        }
    }
}

/// Iterates over the connected components of the map, one dart per component.
pub struct IteratorDartPerComponent<'a, const N: usize, const NA: usize, const NL: usize> {
    pub map: &'a NGMap<N, NA, NL>,
    pub items: Vec<DartIndex>,
    pub pos: usize,
}

impl<'a, const N: usize, const NA: usize, const NL: usize> IteratorDartPerComponent<'a, N, NA, NL> {
    /// The next dart, or `None` once all have been handed out.
    pub fn next(&mut self) -> (r: Option<DartIndex>)
        ensures
            final(self).items@ == old(self).items@,
            final(self).map == old(self).map,
            old(self).pos < old(self).items@.len() ==> r == Some(old(self).items@[old(self).pos as int]) && final(self).pos == old(self).pos + 1,
            old(self).pos >= old(self).items@.len() ==> r is None && final(self).pos == old(self).pos,
    {
        if self.pos < self.items.len() {
            let d = self.items[self.pos];
            self.pos = self.pos + 1;
            Some(d)
        } else {
            None
        }
    }
}

/// Iterates over the darts of the connected component of a dart.
pub struct IteratorDartsInComponent<'a, const N: usize, const NA: usize, const NL: usize> {
    pub map: &'a NGMap<N, NA, NL>,
    pub items: Vec<DartIndex>,
    pub pos: usize,
}

impl<'a, const N: usize, const NA: usize, const NL: usize> IteratorDartsInComponent<'a, N, NA, NL> {
    /// The next dart, or `None` once all have been handed out.
    pub fn next(&mut self) -> (r: Option<DartIndex>)
        ensures
            final(self).items@ == old(self).items@,
            final(self).map == old(self).map,
            old(self).pos < old(self).items@.len() ==> r == Some(old(self).items@[old(self).pos as int]) && final(self).pos == old(self).pos + 1,
            old(self).pos >= old(self).items@.len() ==> r is None && final(self).pos == old(self).pos,
    {
        if self.pos < self.items.len() {
            let d = self.items[self.pos];
            self.pos = self.pos + 1;
            Some(d)
        } else {
            None
        }
    }
}

/// Iterates over all darts in use (collected in advance).
pub struct IteratorAllDartsList<'a, const N: usize, const NA: usize, const NL: usize> {
    pub map: &'a NGMap<N, NA, NL>,
    pub items: Vec<DartIndex>,
    pub pos: usize,
}

impl<'a, const N: usize, const NA: usize, const NL: usize> IteratorAllDartsList<'a, N, NA, NL> {
    /// The next dart, or `None` once all have been handed out.
    pub fn next(&mut self) -> (r: Option<DartIndex>)
        ensures
            final(self).items@ == old(self).items@,
            final(self).map == old(self).map,
            old(self).pos < old(self).items@.len() ==> r == Some(old(self).items@[old(self).pos as int]) && final(self).pos == old(self).pos + 1,
            old(self).pos >= old(self).items@.len() ==> r is None && final(self).pos == old(self).pos,
    {
        if self.pos < self.items.len() {
            let d = self.items[self.pos];
            self.pos = self.pos + 1;
            Some(d)
        } else {
            None
        }
    }
}

/// The alpha indices `0..n`.
pub open spec fn seq_range(n: int) -> Seq<usize> {
    Seq::new(n as nat, |k: int| k as usize)
}

/// The alpha indices `0..n`, in a vector.
pub fn range_vec(n: usize) -> (r: Vec<usize>)
    ensures
        r@ == seq_range(n as int),
{
    let mut r: Vec<usize> = Vec::new();
    let mut k: usize = 0;
    while k < n
        invariant
            k <= n,
            r@ == seq_range(k as int),
        decreases n - k,
    {
        r.push(k);
        k = k + 1;
        assert(r@ =~= seq_range(k as int));
    }
    r
}

impl<'a, const N: usize, const NA: usize, const NL: usize> IteratorOrbit<'a, N, NA, NL> {
    pub fn new(map: &'a NGMap<N, NA, NL>, dart: DartIndex, iseq: &'a [usize]) -> (r: Self)
        requires
            map.wf(),
            dart.0 < map.len(),
            iseq@.len() <= N,
            forall|j: int| 0 <= j < iseq@.len() ==> #[trigger] iseq@[j] < N,
        ensures
            r.map == map,
            r.pos == 0,
            map.is_orbit(dart.0 as int, iseq@, r.items@),
    {
        let items = map.orbit_darts(dart, iseq);
        IteratorOrbit { map: map, items: items, pos: 0 }
    }
}

impl<'a, const N: usize, const NA: usize, const NL: usize> IteratorDartsInCell<'a, N, NA, NL> {
    pub fn new(map: &'a NGMap<N, NA, NL>, dart: DartIndex, i: usize) -> (r: Self)
        requires
            map.wf(),
            dart.0 < map.len(),
            i < N,
        ensures
            r.map == map,
            r.pos == 0,
            map.is_orbit(dart.0 as int, seq_without(i as int, N as int), r.items@),
    {
        let iseq = get_seq(i, N);
        let items = map.orbit_darts(dart, iseq.as_slice());
        IteratorDartsInCell { map: map, items: items, pos: 0 }
    }
}

impl<'a, const N: usize, const NA: usize, const NL: usize> IteratorDartPerCell<'a, N, NA, NL> {
    pub fn new(map: &'a NGMap<N, NA, NL>, i: usize) -> (r: Self)
        requires
            map.wf(),
            i < N,
        ensures
            r.map == map,
            r.pos == 0,
            to_ints(r.items@) == map.reps(map.all_darts(), seq_without(i as int, N as int)),
            forall|k: int| 0 <= k < r.items@.len() ==> (#[trigger] r.items@[k]).0 < map.len(),
    {
        let iseq = get_seq(i, N);
        let all = map.all_darts_vec();
        let items = map.reps_of(&all, iseq.as_slice());
        IteratorDartPerCell { map: map, items: items, pos: 0 }
    }
}

impl<'a, const N: usize, const NA: usize, const NL: usize> IteratorDartPerCellIncident<'a, N, NA, NL> {
    pub fn new(map: &'a NGMap<N, NA, NL>, dart: DartIndex, i: usize, j: usize) -> (r: Self)
        requires
            map.wf(),
            dart.0 < map.len(),
            i < N,
            j < N,
            i != j,
        ensures
            r.map == map,
            r.pos == 0,
            map.is_orbit(dart.0 as int, seq_without(j as int, N as int), r.source@),
            to_ints(r.items@) == map.reps(to_ints(r.source@), seq_without(i as int, N as int)),
    {
        let iseq = get_seq(i, N);
        let jseq = get_seq(j, N);
        let source = map.orbit_darts(dart, jseq.as_slice());
        let items = map.reps_of(&source, iseq.as_slice());
        IteratorDartPerCellIncident { map: map, items: items, pos: 0, source: Ghost(source@) }
    }
}

impl<const N: usize, const NA: usize, const NL: usize> NGMap<N, NA, NL> {
    /// alpha(`i`) of each dart of `ds`, as integers.
    pub open spec fn alphas_of(&self, ds: Seq<DartIndex>, i: int) -> Seq<int> {
        ds.map_values(|d: DartIndex| self.alpha(d.0 as int, i))
    }
}

impl<'a, const N: usize, const NA: usize, const NL: usize> IteratorDartPerCellAdjacent<'a, N, NA, NL> {
    pub fn new(map: &'a NGMap<N, NA, NL>, dart: DartIndex, i: usize) -> (r: Self)
        requires
            map.wf(),
            dart.0 < map.len(),
            i < N,
        ensures
            r.map == map,
            r.pos == 0,
            map.is_orbit(dart.0 as int, seq_without(i as int, N as int), r.source@),
            to_ints(r.items@) == map.reps(map.alphas_of(r.source@, i as int), seq_without(i as int, N as int)),
    {
        let iseq = get_seq(i, N);
        let source = map.orbit_darts(dart, iseq.as_slice());
        let mut neighbours: Vec<DartIndex> = Vec::new();
        let mut k: usize = 0;
        while k < source.len()
            invariant
                map.wf(),
                i < N,
                k <= source@.len(),
                forall|m: int| 0 <= m < source@.len() ==> (#[trigger] source@[m]).0 < map.len(),
                to_ints(neighbours@) == map.alphas_of(source@, i as int).take(k as int),
                forall|m: int| 0 <= m < neighbours@.len() ==> (#[trigger] neighbours@[m]).0 < map.len(),
            decreases source@.len() - k,
        {
            let d = source[k];
            let d_i = map.darts[d.0].get_alpha(i);
            assert(map.alpha(d.0 as int, i as int) < map.len());
            let ghost before = neighbours@;
            neighbours.push(d_i);
            proof {
                assert(d_i.0 == map.alpha(d.0 as int, i as int));
                assert(to_ints(before).len() == before.len());
                assert(map.alphas_of(source@, i as int).len() == source@.len());
                assert(before.len() == k);
                assert(neighbours@.len() == k + 1);
                assert forall|m: int| 0 <= m < k + 1 implies to_ints(neighbours@)[m] == map.alphas_of(source@, i as int).take(k + 1)[m] by {
                    if m < k {
                        assert(neighbours@[m] == before[m]);
                        assert(to_ints(before)[m] == map.alphas_of(source@, i as int).take(k as int)[m]);
                    }
                }
            }
            k = k + 1;
            assert(to_ints(neighbours@) =~= map.alphas_of(source@, i as int).take(k as int));
        }
        assert(map.alphas_of(source@, i as int).take(source@.len() as int) =~= map.alphas_of(source@, i as int));
        let items = map.reps_of(&neighbours, iseq.as_slice());
        IteratorDartPerCellAdjacent { map: map, items: items, pos: 0, source: Ghost(source@) }
    }
}

impl<'a, const N: usize, const NA: usize, const NL: usize> IteratorDartPerComponent<'a, N, NA, NL> {
    pub fn new(map: &'a NGMap<N, NA, NL>) -> (r: Self)
        requires
            map.wf(),
        ensures
            r.map == map,
            r.pos == 0,
            to_ints(r.items@) == map.reps(map.all_darts(), seq_range(N as int)),
            forall|k: int| 0 <= k < r.items@.len() ==> (#[trigger] r.items@[k]).0 < map.len(),
    {
        let seq = range_vec(N);
        let all = map.all_darts_vec();
        let items = map.reps_of(&all, seq.as_slice());
        IteratorDartPerComponent { map: map, items: items, pos: 0 }
    }
}

impl<'a, const N: usize, const NA: usize, const NL: usize> IteratorDartsInComponent<'a, N, NA, NL> {
    pub fn new(map: &'a NGMap<N, NA, NL>, dart: DartIndex) -> (r: Self)
        requires
            map.wf(),
            dart.0 < map.len(),
        ensures
            r.map == map,
            r.pos == 0,
            map.is_orbit(dart.0 as int, seq_range(N as int), r.items@),
    {
        let seq = range_vec(N);
        let items = map.orbit_darts(dart, seq.as_slice());
        IteratorDartsInComponent { map: map, items: items, pos: 0 }
    }
}

/// Iterates over the darts around a vertex, turning counter-clockwise
/// (alpha(2) then alpha(0)) until the first dart comes back or a free link
/// stops the turn.
pub struct Circulator<'a, const N: usize, const NA: usize, const NL: usize> {
    pub inspector: Option<DartInspector<'a, N, NA, NL>>,
    pub dart: DartIndex,
    pub started: bool,
}

impl<'a, const N: usize, const NA: usize, const NL: usize> Circulator<'a, N, NA, NL> {
    pub fn new(map: &'a NGMap<N, NA, NL>, dart: DartIndex) -> (r: Self)
        ensures
            r.inspector == Some(DartInspector { index: dart, map: map }),
            r.dart == dart,
            !r.started,
    {
        Circulator { inspector: Some(DartInspector::new(dart, map)), dart: dart, started: false }
    }

    /// The current dart, then a counter-clockwise turn.
    pub fn next(&mut self) -> (r: Option<DartIndex>)
        requires
            old(self).inspector matches Some(x) ==> x.valid(),
            N > 2,
        ensures
            final(self).dart == old(self).dart,
            final(self).inspector matches Some(x) ==> x.valid(),
            old(self).inspector is None ==> r is None && *final(self) == *old(self),
            old(self).inspector matches Some(x) ==> {
                if old(self).started && x.index == old(self).dart {
                    r is None && *final(self) == *old(self)
                } else {
                    &&& r == Some(x.index)
                    &&& final(self).started
                    &&& x.walks_to(seq![2int, 0], final(self).inspector)
                }
            },
    {
        if self.inspector.is_none() {
            return None;
        }
        let cur_ins = self.inspector.take().unwrap();
        if self.started && cur_ins.index.0 == self.dart.0 {
            self.inspector = Some(cur_ins);
            return None;
        }
        if !self.started {
            self.started = true;
        }
        let current = cur_ins.index;
        self.inspector = cur_ins.rot_ccw();
        Some(current)
    }
}

impl<const N: usize, const NA: usize, const NL: usize> NGMap<N, NA, NL> {
    /// Iterator over the orbit of `dart` under the alpha links in `iseq`.
    pub fn iter_orbit<'a>(&'a self, dart: DartIndex, iseq: &'a [usize]) -> (r: IteratorOrbit<'a, N, NA, NL>)
        requires
            self.wf(),
            dart.0 < self.len(),
            iseq@.len() <= N,
            forall|j: int| 0 <= j < iseq@.len() ==> #[trigger] iseq@[j] < N,
        ensures
            r.pos == 0,
            self.is_orbit(dart.0 as int, iseq@, r.items@),
    {
        IteratorOrbit::new(self, dart, iseq)
    }

    /// Iterator over the darts of the `i`-cell of `dart`.
    pub fn iter_darts_in_cell(&self, dart: DartIndex, i: usize) -> (r: IteratorDartsInCell<'_, N, NA, NL>)
        requires
            self.wf(),
            dart.0 < self.len(),
            i < N,
        ensures
            r.pos == 0,
            self.is_orbit(dart.0 as int, seq_without(i as int, N as int), r.items@),
    {
        IteratorDartsInCell::new(self, dart, i)
    }

    /// Iterator yielding one dart per `i`-cell of the map.
    pub fn iter_dart_per_cell(&self, i: usize) -> (r: IteratorDartPerCell<'_, N, NA, NL>)
        requires
            self.wf(),
            i < N,
        ensures
            r.pos == 0,
            to_ints(r.items@) == self.reps(self.all_darts(), seq_without(i as int, N as int)),
            forall|k: int| 0 <= k < r.items@.len() ==> (#[trigger] r.items@[k]).0 < self.len(),
    {
        IteratorDartPerCell::new(self, i)
    }

    /// Iterator yielding one dart per `i`-cell incident to the `j`-cell of
    /// `dart`.
    pub fn iter_incident(&self, dart: DartIndex, i: usize, j: usize) -> (r: IteratorDartPerCellIncident<'_, N, NA, NL>)
        requires
            self.wf(),
            dart.0 < self.len(),
            i < N,
            j < N,
            i != j,
        ensures
            r.pos == 0,
            self.is_orbit(dart.0 as int, seq_without(j as int, N as int), r.source@),
            to_ints(r.items@) == self.reps(to_ints(r.source@), seq_without(i as int, N as int)),
    {
        IteratorDartPerCellIncident::new(self, dart, i, j)
    }

    /// Iterator yielding one dart per `i`-cell adjacent to the `i`-cell of
    /// `dart`.
    pub fn iter_adjacent(&self, dart: DartIndex, i: usize) -> (r: IteratorDartPerCellAdjacent<'_, N, NA, NL>)
        requires
            self.wf(),
            dart.0 < self.len(),
            i < N,
        ensures
            r.pos == 0,
            self.is_orbit(dart.0 as int, seq_without(i as int, N as int), r.source@),
            to_ints(r.items@) == self.reps(self.alphas_of(r.source@, i as int), seq_without(i as int, N as int)),
    {
        IteratorDartPerCellAdjacent::new(self, dart, i)
    }

    /// Iterator over all darts in use, in increasing order.
    pub fn iter_all(&self) -> (r: IteratorAllDarts<'_, N, NA, NL>)
        ensures
            r.map == self,
            r.cur == 1,
    {
        IteratorAllDarts::new(self)
    }

    /// Iterator yielding one dart per connected component.
    pub fn iter_dart_per_component(&self) -> (r: IteratorDartPerComponent<'_, N, NA, NL>)
        requires
            self.wf(),
        ensures
            r.pos == 0,
            to_ints(r.items@) == self.reps(self.all_darts(), seq_range(N as int)),
    {
        IteratorDartPerComponent::new(self)
    }

    /// Iterator over the darts of the connected component of `dart`.
    pub fn iter_darts_in_component(&self, dart: DartIndex) -> (r: IteratorDartsInComponent<'_, N, NA, NL>)
        requires
            self.wf(),
            dart.0 < self.len(),
        ensures
            r.pos == 0,
            self.is_orbit(dart.0 as int, seq_range(N as int), r.items@),
    {
        IteratorDartsInComponent::new(self, dart)
    }
}

/// Iterates over all darts in use, in increasing order.
pub struct IteratorAllDarts<'a, const N: usize, const NA: usize, const NL: usize> {
    pub map: &'a NGMap<N, NA, NL>,
    pub cur: usize,
}

impl<'a, const N: usize, const NA: usize, const NL: usize> IteratorAllDarts<'a, N, NA, NL> {
    pub fn new(map: &'a NGMap<N, NA, NL>) -> (r: Self)
        ensures
            r.map == map,
            r.cur == 1,
    {
        IteratorAllDarts { map: map, cur: 1 }
    }

    /// The next dart in use at or after the cursor, if any.
    pub fn next(&mut self) -> (r: Option<DartIndex>)
        requires
            old(self).map.wf(),
        ensures
            final(self).map == old(self).map,
            match r {
                Some(d) => {
                    &&& old(self).cur <= d.0 < old(self).map.len()
                    &&& old(self).map.is_init(d.0 as int)
                    &&& forall|k: int| old(self).cur <= k < d.0 ==> !old(self).map.is_init(k)
                    &&& final(self).cur == d.0 + 1
                },
                None => forall|k: int| old(self).cur <= k < old(self).map.len() ==> !old(self).map.is_init(k),
            },
    {
        while self.cur < self.map.darts.len()
            invariant
                self.map == old(self).map,
                old(self).cur <= self.cur,
                forall|k: int| old(self).cur <= k < self.cur ==> !old(self).map.is_init(k),
            decreases self.map.len() - self.cur,
        {
            let cur = self.cur;
            self.cur = self.cur + 1;
            if self.map.darts[cur].is_init() {
                return Some(DartIndex(cur));
            }
        }
        None
    }
}

} // verus!
