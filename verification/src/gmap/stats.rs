//! Occupation statistics of a map: cells, components, and which link and
//! attribute slots are in use.

use vstd::prelude::*;
use crate::index::{DartIndex, AttributeIndex};
use crate::iterators::{ids, to_ints, seq_range};
use crate::orbits::seq_without;
use super::NGMap;

verus! {

/// How many of the first `n` entries of `s` are `true`.
pub open spec fn count_true(s: Seq<bool>, n: int) -> nat
    decreases n,
{
    if n <= 0 {
        0
    } else {
        count_true(s, n - 1) + (if s[n - 1] { 1nat } else { 0nat })
    }
}

/// Counting up to `n` gives at most `n`.
pub proof fn lemma_count_true_bound(s: Seq<bool>, n: int)
    requires
        n >= 0,
    ensures
        count_true(s, n) <= n,
    decreases n,
{
    if n > 0 {
        lemma_count_true_bound(s, n - 1);
    }
}

/// Counts the `true` entries among the first `n` of `v`.
fn count_flags(v: &Vec<bool>, n: usize) -> (r: usize)
    requires
        n <= v@.len(),
    ensures
        r == count_true(v@, n as int),
{
    let mut r: usize = 0;
    let mut k: usize = 0;
    while k < n
        invariant
            k <= n,
            n <= v@.len(),
            r == count_true(v@, k as int),
        decreases n - k,
    {
        proof {
            lemma_count_true_bound(v@, k as int);
        }
        if v[k] {
            r = r + 1;
        }
        k = k + 1;
    }
    r
}

impl<const N: usize, const NA: usize, const NL: usize> NGMap<N, NA, NL> {
    /// Some dart in use (not dart 0) is not alpha(`k`)-free.
    pub open spec fn alpha_used(&self, k: int) -> bool {
        exists|d: int| 1 <= d < self.len() && self.is_init(d) && #[trigger] self.alpha(d, k) != d
    }

    /// Some dart in use (not dart 0) carries a non-null attribute index in
    /// slot `s`.
    pub open spec fn attribute_used(&self, s: int) -> bool {
        exists|d: int| 1 <= d < self.len() && self.is_init(d) && #[trigger] self.attr(d, s) != AttributeIndex(usize::MAX)
    }

    /// Some dart in use (not dart 0) has weak link `l` to another dart.
    pub open spec fn link_used(&self, l: int) -> bool {
        exists|d: int| 1 <= d < self.len() && self.is_init(d) && #[trigger] self.link(d, l).0 != d
    }

    /// The number of `idim`-cells: one per representative among the darts
    /// in use.
    pub fn number_cells(&self, idim: usize) -> (r: usize)
        requires
            self.wf(),
            idim < N,
        ensures
            r == self.reps(self.all_darts(), seq_without(idim as int, N as int)).len(),
    {
        let it = self.iter_dart_per_cell(idim);
        let r = it.items.len();
        proof {
            assert(to_ints(it.items@).len() == it.items@.len());
        }
        r
    }

    /// The numbers of alpha links below `ndims`, of attribute slots and of
    /// weak links that some dart in use actually uses (a link to another
    /// dart, a non-null attribute index).
    pub fn number_dimensions_non_free(&self) -> (r: (usize, usize, usize))
        requires
            self.wf(),
        ensures
            r.0 == count_true(Seq::new(self.ndims as nat, |k: int| self.alpha_used(k)), self.ndims as int),
            r.1 == count_true(Seq::new(NA as nat, |s: int| self.attribute_used(s)), NA as int),
            r.2 == count_true(Seq::new(NL as nat, |l: int| self.link_used(l)), NL as int),
    {
        let mut alpha_nonfree: Vec<bool> = crate::dart::vec_repeat(false, N);
        let mut attribute_nonfree: Vec<bool> = crate::dart::vec_repeat(false, NA);
        let mut pointer_nonfree: Vec<bool> = crate::dart::vec_repeat(false, NL);
        let len = self.darts.len();
        let ndims = self.ndims;
        let mut d: usize = 1;
        while d < len
            invariant
                self.wf(),
                len == self.len(),
                ndims == self.ndims,
                1 <= d <= len,
                alpha_nonfree@.len() == N,
                attribute_nonfree@.len() == NA,
                pointer_nonfree@.len() == NL,
                forall|k: int| 0 <= k < ndims ==> #[trigger] alpha_nonfree@[k] == exists|e: int| 1 <= e < d && self.is_init(e) && #[trigger] self.alpha(e, k) != e,
                forall|s: int| 0 <= s < NA ==> #[trigger] attribute_nonfree@[s] == exists|e: int| 1 <= e < d && self.is_init(e) && #[trigger] self.attr(e, s) != AttributeIndex(usize::MAX),
                forall|l: int| 0 <= l < NL ==> #[trigger] pointer_nonfree@[l] == exists|e: int| 1 <= e < d && self.is_init(e) && #[trigger] self.link(e, l).0 != e,
            decreases len - d,
        {
            if self.darts[d].is_init() {
                assert(self.darts@[d as int].wf());
                let mut k: usize = 0;
                while k < ndims
                    invariant
                        self.wf(),
                        len == self.len(),
                        ndims == self.ndims,
                        ndims <= N,
                        1 <= d < len,
                        self.is_init(d as int),
                        k <= ndims,
                        alpha_nonfree@.len() == N,
                        forall|kk: int| 0 <= kk < ndims ==> #[trigger] alpha_nonfree@[kk] == (
                            (exists|e: int| 1 <= e < d && self.is_init(e) && #[trigger] self.alpha(e, kk) != e)
                            || (kk < k && self.alpha(d as int, kk) != d)),
                    decreases ndims - k,
                {
                    if self.darts[d].get_alpha(k).0 != d {
                        alpha_nonfree.set(k, true);
                    }
                    k = k + 1;
                }
                let mut s: usize = 0;
                while s < NA
                    invariant
                        self.wf(),
                        len == self.len(),
                        1 <= d < len,
                        self.is_init(d as int),
                        s <= NA,
                        attribute_nonfree@.len() == NA,
                        forall|ss: int| 0 <= ss < NA ==> #[trigger] attribute_nonfree@[ss] == (
                            (exists|e: int| 1 <= e < d && self.is_init(e) && #[trigger] self.attr(e, ss) != AttributeIndex(usize::MAX))
                            || (ss < s && self.attr(d as int, ss) != AttributeIndex(usize::MAX))),
                    decreases NA - s,
                {
                    assert(self.darts@[d as int].wf());
                    if self.darts[d].get_attribute_index(s).0 != usize::MAX {
                        attribute_nonfree.set(s, true);
                    }
                    s = s + 1;
                }
                let mut l: usize = 0;
                while l < NL
                    invariant
                        self.wf(),
                        len == self.len(),
                        1 <= d < len,
                        self.is_init(d as int),
                        l <= NL,
                        pointer_nonfree@.len() == NL,
                        forall|ll: int| 0 <= ll < NL ==> #[trigger] pointer_nonfree@[ll] == (
                            (exists|e: int| 1 <= e < d && self.is_init(e) && #[trigger] self.link(e, ll).0 != e)
                            || (ll < l && self.link(d as int, ll).0 != d)),
                    decreases NL - l,
                {
                    assert(self.darts@[d as int].wf());
                    if self.darts[d].get_link(l).0 != d {
                        pointer_nonfree.set(l, true);
                    }
                    l = l + 1;
                }
            }
            proof {
                assert forall|k: int| 0 <= k < ndims implies #[trigger] alpha_nonfree@[k] == exists|e: int| 1 <= e < d + 1 && self.is_init(e) && #[trigger] self.alpha(e, k) != e by {
                    if exists|e: int| 1 <= e < d + 1 && self.is_init(e) && #[trigger] self.alpha(e, k) != e {
                        let e = choose|e: int| 1 <= e < d + 1 && self.is_init(e) && #[trigger] self.alpha(e, k) != e;
                        if e < d {
                            assert(exists|e2: int| 1 <= e2 < d && self.is_init(e2) && #[trigger] self.alpha(e2, k) != e2);
                        }
                    }
                }
                assert forall|s: int| 0 <= s < NA implies #[trigger] attribute_nonfree@[s] == exists|e: int| 1 <= e < d + 1 && self.is_init(e) && #[trigger] self.attr(e, s) != AttributeIndex(usize::MAX) by {
                    if exists|e: int| 1 <= e < d + 1 && self.is_init(e) && #[trigger] self.attr(e, s) != AttributeIndex(usize::MAX) {
                        let e = choose|e: int| 1 <= e < d + 1 && self.is_init(e) && #[trigger] self.attr(e, s) != AttributeIndex(usize::MAX);
                        if e < d {
                            assert(exists|e2: int| 1 <= e2 < d && self.is_init(e2) && #[trigger] self.attr(e2, s) != AttributeIndex(usize::MAX));
                        }
                    }
                }
                assert forall|l: int| 0 <= l < NL implies #[trigger] pointer_nonfree@[l] == exists|e: int| 1 <= e < d + 1 && self.is_init(e) && #[trigger] self.link(e, l).0 != e by {
                    if exists|e: int| 1 <= e < d + 1 && self.is_init(e) && #[trigger] self.link(e, l).0 != e {
                        let e = choose|e: int| 1 <= e < d + 1 && self.is_init(e) && #[trigger] self.link(e, l).0 != e;
                        if e < d {
                            assert(exists|e2: int| 1 <= e2 < d && self.is_init(e2) && #[trigger] self.link(e2, l).0 != e2);
                        }
                    }
                }
            }
            d = d + 1;
        }
        let a = count_flags(&alpha_nonfree, ndims);
        let b = count_flags(&attribute_nonfree, NA);
        let c = count_flags(&pointer_nonfree, NL);
        proof {
            assert(alpha_nonfree@.take(ndims as int) =~= Seq::new(self.ndims as nat, |k: int| self.alpha_used(k)));
            assert(attribute_nonfree@ =~= Seq::new(NA as nat, |s: int| self.attribute_used(s)));
            assert(pointer_nonfree@ =~= Seq::new(NL as nat, |l: int| self.link_used(l)));
            lemma_count_true_take(alpha_nonfree@, Seq::new(self.ndims as nat, |k: int| self.alpha_used(k)), ndims as int);
        }
        (a, b, c)
    }

    /// The number of alpha links (below `N`) that some dart in use does not
    /// leave free.
    pub fn number_alpha_nonfree(&self) -> (r: usize)
        requires
            self.wf(),
        ensures
            r == count_true(Seq::new(N as nat, |k: int| self.alpha_used(k)), N as int),
    {
        let mut flags: Vec<bool> = crate::dart::vec_repeat(false, N);
        let len = self.darts.len();
        let mut d: usize = 1;
        while d < len
            invariant
                self.wf(),
                len == self.len(),
                1 <= d <= len,
                flags@.len() == N,
                forall|k: int| 0 <= k < N ==> #[trigger] flags@[k] == exists|e: int| 1 <= e < d && self.is_init(e) && #[trigger] self.alpha(e, k) != e,
            decreases len - d,
        {
            if self.darts[d].is_init() {
                let mut k: usize = 0;
                while k < N
                    invariant
                        self.wf(),
                        len == self.len(),
                        1 <= d < len,
                        self.is_init(d as int),
                        k <= N,
                        flags@.len() == N,
                        forall|kk: int| 0 <= kk < N ==> #[trigger] flags@[kk] == (
                            (exists|e: int| 1 <= e < d && self.is_init(e) && #[trigger] self.alpha(e, kk) != e)
                            || (kk < k && self.alpha(d as int, kk) != d)),
                    decreases N - k,
                {
                    assert(self.darts@[d as int].wf());
                    if self.darts[d].get_alpha(k).0 != d {
                        flags.set(k, true);
                    }
                    k = k + 1;
                }
            }
            proof {
                assert forall|k: int| 0 <= k < N implies #[trigger] flags@[k] == exists|e: int| 1 <= e < d + 1 && self.is_init(e) && #[trigger] self.alpha(e, k) != e by {
                    if exists|e: int| 1 <= e < d + 1 && self.is_init(e) && #[trigger] self.alpha(e, k) != e {
                        let e = choose|e: int| 1 <= e < d + 1 && self.is_init(e) && #[trigger] self.alpha(e, k) != e;
                        if e < d {
                            assert(exists|e2: int| 1 <= e2 < d && self.is_init(e2) && #[trigger] self.alpha(e2, k) != e2);
                        }
                    }
                }
            }
            d = d + 1;
        }
        proof {
            assert(flags@ =~= Seq::new(N as nat, |k: int| self.alpha_used(k)));
        }
        count_flags(&flags, N)
    }

    /// Some dart of the component of `d` is not alpha(`k`)-free.
    pub open spec fn alpha_used_in_component(&self, d: int, k: int) -> bool {
        exists|e: int| self.orbit_set(d, seq_range(N as int)).contains(e) && #[trigger] self.alpha(e, k) != e
    }

    /// The number of alpha links that some dart of the component of `dart`
    /// does not leave free.
    pub fn number_alpha_nonfree_component(&self, dart: &DartIndex) -> (r: usize)
        requires
            self.wf(),
            dart.0 < self.len(),
        ensures
            r == count_true(Seq::new(N as nat, |k: int| self.alpha_used_in_component(dart.0 as int, k)), N as int),
    {
        let darts = self.iter_darts_in_component(*dart).items;
        let ghost comp = self.orbit_set(dart.0 as int, seq_range(N as int));
        proof {
            self.lemma_orbit_ids(dart.0 as int, seq_range(N as int), darts@);
        }
        let mut flags: Vec<bool> = crate::dart::vec_repeat(false, N);
        let mut i: usize = 0;
        while i < darts.len()
            invariant
                self.wf(),
                ids(darts@) == comp,
                forall|j: int| 0 <= j < darts@.len() ==> (#[trigger] darts@[j]).0 < self.len(),
                i <= darts@.len(),
                flags@.len() == N,
                forall|k: int| 0 <= k < N ==> #[trigger] flags@[k] == exists|j: int| 0 <= j < i && #[trigger] self.alpha(darts@[j].0 as int, k) != darts@[j].0,
            decreases darts@.len() - i,
        {
            let di = darts[i];
            let mut k: usize = 0;
            while k < N
                invariant
                    self.wf(),
                    di.0 < self.len(),
                    di == darts@[i as int],
                    i < darts@.len(),
                    k <= N,
                    flags@.len() == N,
                    forall|kk: int| 0 <= kk < N ==> #[trigger] flags@[kk] == (
                        (exists|j: int| 0 <= j < i && #[trigger] self.alpha(darts@[j].0 as int, kk) != darts@[j].0)
                        || (kk < k && self.alpha(di.0 as int, kk) != di.0)),
                decreases N - k,
            {
                assert(self.darts@[di.0 as int].wf());
                if self.darts[di.0].get_alpha(k).0 != di.0 {
                    flags.set(k, true);
                }
                k = k + 1;
            }
            proof {
                assert forall|kk: int| 0 <= kk < N implies #[trigger] flags@[kk] == exists|j: int| 0 <= j < i + 1 && #[trigger] self.alpha(darts@[j].0 as int, kk) != darts@[j].0 by {
                    if exists|j: int| 0 <= j < i + 1 && #[trigger] self.alpha(darts@[j].0 as int, kk) != darts@[j].0 {
                        let j = choose|j: int| 0 <= j < i + 1 && #[trigger] self.alpha(darts@[j].0 as int, kk) != darts@[j].0;
                        if j < i {
                            assert(exists|j2: int| 0 <= j2 < i && #[trigger] self.alpha(darts@[j2].0 as int, kk) != darts@[j2].0);
                        }
                    }
                }
            }
            i = i + 1;
        }
        proof {
            assert forall|k: int| 0 <= k < N implies #[trigger] flags@[k] == self.alpha_used_in_component(dart.0 as int, k) by {
                if flags@[k] {
                    let j = choose|j: int| 0 <= j < darts@.len() && #[trigger] self.alpha(darts@[j].0 as int, k) != darts@[j].0;
                    assert(ids(darts@).contains(darts@[j].0 as int));
                }
                if self.alpha_used_in_component(dart.0 as int, k) {
                    let e = choose|e: int| comp.contains(e) && #[trigger] self.alpha(e, k) != e;
                    let j = choose|j: int| 0 <= j < darts@.len() && #[trigger] darts@[j].0 == e;
                    assert(self.alpha(darts@[j].0 as int, k) != darts@[j].0);
                }
            }
            assert(flags@ =~= Seq::new(N as nat, |k: int| self.alpha_used_in_component(dart.0 as int, k)));
        }
        count_flags(&flags, N)
    }

    /// The number of connected components: one per representative among
    /// the darts in use.
    pub fn number_connected_components(&self) -> (r: usize)
        requires
            self.wf(),
        ensures
            r == self.reps(self.all_darts(), seq_range(N as int)).len(),
    {
        let it = self.iter_dart_per_component();
        let r = it.items.len();
        proof {
            assert(to_ints(it.items@).len() == it.items@.len());
        }
        r
    }
}

/// Counting the first `n` entries only looks at those entries.
pub proof fn lemma_count_true_take(s: Seq<bool>, t: Seq<bool>, n: int)
    requires
        0 <= n <= s.len(),
        s.take(n) == t,
    ensures
        count_true(s, n) == count_true(t, n),
    decreases n,
{
    if n > 0 {
        assert(s.take(n - 1) == t.take(n - 1));
        lemma_count_true_take(s, t.take(n - 1), n - 1);
        lemma_count_true_take(t, t.take(n - 1), n - 1);
        assert(t.take(n - 1).take(n - 1) =~= t.take(n - 1));
    }
}

} // verus!
