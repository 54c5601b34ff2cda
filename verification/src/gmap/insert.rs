//! Insertion: the inverse of removal. A cell given by a list of darts is
//! glued along alpha(i) into an open place of the map, each listed dart
//! linked to its partner.

use vstd::prelude::*;
use crate::index::DartIndex;
use crate::orbits::{seq_sewing, get_seq_sewing};
use super::NGMap;

verus! {

/// The keys of the pairs of `assoc` are distinct.
pub open spec fn keys_distinct(assoc: Seq<(DartIndex, DartIndex)>) -> bool {
    forall|i: int, j: int| 0 <= i < j < assoc.len() ==> (#[trigger] assoc[i]).0 != (#[trigger] assoc[j]).0
}

/// `x` is a key of `assoc`.
pub open spec fn is_key(assoc: Seq<(DartIndex, DartIndex)>, x: int) -> bool {
    exists|i: int| 0 <= i < assoc.len() && (#[trigger] assoc[i]).0.0 == x
}

/// The partner of key `x` in `assoc`.
pub open spec fn partner(assoc: Seq<(DartIndex, DartIndex)>, x: int) -> int {
    assoc[choose|i: int| 0 <= i < assoc.len() && (#[trigger] assoc[i]).0.0 == x].1.0 as int
}

/// The key of the last pair (before `m`) whose partner is `y`, or -1.
pub open spec fn inverse_partner(assoc: Seq<(DartIndex, DartIndex)>, y: int, m: int) -> int
    decreases m,
{
    if m <= 0 {
        -1
    } else if assoc[m - 1].1.0 == y {
        assoc[m - 1].0.0 as int
    } else {
        inverse_partner(assoc, y, m - 1)
    }
}

impl<const N: usize, const NA: usize, const NL: usize> NGMap<N, NA, NL> {
    /// `n` steps along alpha(`idim`) then alpha(`idim + 1`), from `d`.
    pub open spec fn insert_walk(&self, d: int, idim: int, n: nat) -> int
        decreases n,
    {
        if n == 0 {
            d
        } else {
            let prev = self.insert_walk(d, idim, (n - 1) as nat);
            self.alpha(self.alpha(prev, idim), idim + 1)
        }
    }

    /// The walk from `d` first reaches a key of `assoc` after `n` steps.
    pub open spec fn insert_walk_ends(&self, assoc: Seq<(DartIndex, DartIndex)>, d: int, idim: int, n: nat) -> bool {
        &&& is_key(assoc, self.insert_walk(d, idim, n))
        &&& forall|m: nat| m < n ==> !is_key(assoc, #[trigger] self.insert_walk(d, idim, m))
    }

    /// Where the walk from `d` first reaches a key of `assoc`.
    pub open spec fn insert_walk_end(&self, assoc: Seq<(DartIndex, DartIndex)>, d: int, idim: int) -> int {
        self.insert_walk(d, idim, choose|n: nat| self.insert_walk_ends(assoc, d, idim, n))
    }

    /// The part of the check on pair `i` that comes before the walk: its
    /// key is alpha(`idim`)-free, and along every sewing link the pairs
    /// agree: a key reached from a key leads to the partner reached from
    /// its partner, and a partner reached from a partner (last pair with
    /// it) to the key reached from its key.
    pub open spec fn insert_pair_links(&self, assoc: Seq<(DartIndex, DartIndex)>, idim: int, i: int) -> bool {
        let d1 = assoc[i].0.0 as int;
        let d2 = assoc[i].1.0 as int;
        let seq = seq_sewing(idim, N as int);
        &&& self.free(d1, idim)
        &&& forall|j: int| 0 <= j < seq.len() && is_key(assoc, #[trigger] self.alpha(d1, seq[j] as int))
                ==> partner(assoc, self.alpha(d1, seq[j] as int)) == self.alpha(d2, seq[j] as int)
        &&& forall|j: int| 0 <= j < seq.len() && inverse_partner(assoc, #[trigger] self.alpha(d2, seq[j] as int), assoc.len() as int) >= 0
                ==> inverse_partner(assoc, self.alpha(d2, seq[j] as int), assoc.len() as int) == self.alpha(d1, seq[j] as int)
    }

    /// Pair `i` passes the check: its links agree, and the key reached by
    /// walking from alpha(idim + 1) of its key has, as partner, alpha(`idim`)
    /// of its partner.
    pub open spec fn insert_pair_ok(&self, assoc: Seq<(DartIndex, DartIndex)>, idim: int, i: int) -> bool {
        &&& self.insert_pair_links(assoc, idim, i)
        &&& partner(assoc, self.insert_walk_end(assoc, self.alpha(assoc[i].0.0 as int, idim + 1), idim))
                == self.alpha(assoc[i].1.0 as int, idim)
    }

    /// Checking `assoc` runs to its end: the pairs hold darts of the map,
    /// and each walk that the check reaches meets a key.
    pub open spec fn insert_check_defined(&self, assoc: Seq<(DartIndex, DartIndex)>, idim: int) -> bool {
        &&& keys_distinct(assoc)
        &&& forall|i: int| 0 <= i < assoc.len() ==> (#[trigger] assoc[i]).0.0 < self.len() && assoc[i].1.0 < self.len()
        &&& forall|i: int| 0 <= i < assoc.len()
                && (forall|k: int| 0 <= k < i ==> #[trigger] self.insert_pair_ok(assoc, idim, k))
                && #[trigger] self.insert_pair_links(assoc, idim, i)
                ==> exists|n: nat| #[trigger] self.insert_walk_ends(assoc, self.alpha(assoc[i].0.0 as int, idim + 1), idim, n)
    }

    /// The partner of key `x` in `assoc`, if `x` is a key.
    fn lookup(assoc: &Vec<(DartIndex, DartIndex)>, x: DartIndex) -> (r: Option<DartIndex>)
        requires
            keys_distinct(assoc@),
        ensures
            r is Some <==> is_key(assoc@, x.0 as int),
            r matches Some(v) ==> v.0 == partner(assoc@, x.0 as int),
    {
        let mut i: usize = 0;
        while i < assoc.len()
            invariant
                i <= assoc@.len(),
                keys_distinct(assoc@),
                forall|k: int| 0 <= k < i ==> (#[trigger] assoc@[k]).0.0 != x.0,
            decreases assoc@.len() - i,
        {
            if assoc[i].0.0 == x.0 {
                proof {
                    let c = choose|c: int| 0 <= c < assoc@.len() && (#[trigger] assoc@[c]).0.0 == x.0;
                    if c != i {
                        if c < i {
                            assert(assoc@[c].0 != assoc@[i as int].0);
                        } else {
                            assert(assoc@[i as int].0 != assoc@[c].0);
                        }
                    }
                }
                return Some(assoc[i].1);
            }
            i = i + 1;
        }
        None
    }

    /// The key of the last pair whose partner is `y`, if any.
    fn inverse_lookup(assoc: &Vec<(DartIndex, DartIndex)>, y: DartIndex) -> (r: Option<DartIndex>)
        ensures
            r is Some <==> inverse_partner(assoc@, y.0 as int, assoc@.len() as int) >= 0,
            r matches Some(v) ==> v.0 == inverse_partner(assoc@, y.0 as int, assoc@.len() as int),
    {
        let mut i: usize = assoc.len();
        while i > 0
            invariant
                i <= assoc@.len(),
                inverse_partner(assoc@, y.0 as int, assoc@.len() as int) == inverse_partner(assoc@, y.0 as int, i as int),
            decreases i,
        {
            if assoc[i - 1].1.0 == y.0 {
                return Some(assoc[i - 1].0);
            }
            i = i - 1;
        }
        None
    }

    /// `true` if the cell listed by the pairs of `assoc` (each key a dart
    /// to glue, its partner the dart to glue it to) can be inserted along
    /// alpha(`idim`) (see `insert_pair_ok`).
    pub fn is_insertable(&self, dart1: &DartIndex, dart2: &DartIndex, idim: usize, assoc: &Vec<(DartIndex, DartIndex)>) -> (r: bool)
        requires
            self.wf(),
            idim < self.ndims,
            assoc@.len() > 0 ==> idim + 1 < N,
            self.insert_check_defined(assoc@, idim as int),
        ensures
            r == forall|i: int| 0 <= i < assoc@.len() ==> #[trigger] self.insert_pair_ok(assoc@, idim as int, i),
    {
        let seq = get_seq_sewing(idim, N);
        proof {
            assert forall|jj: int| 0 <= jj < seq@.len() implies #[trigger] seq@[jj] < N by {}
        }
        let mut i: usize = 0;
        while i < assoc.len()
            invariant
                self.wf(),
                forall|jj: int| 0 <= jj < seq@.len() ==> #[trigger] seq@[jj] < N,
                idim < self.ndims,
                assoc@.len() > 0 ==> idim + 1 < N,
                seq@ == seq_sewing(idim as int, N as int),
                self.insert_check_defined(assoc@, idim as int),
                i <= assoc@.len(),
                forall|k: int| 0 <= k < i ==> #[trigger] self.insert_pair_ok(assoc@, idim as int, k),
            decreases assoc@.len() - i,
        {
            let (d1, d2) = assoc[i];
            if !self.is_free(&d1, idim) {
                proof {
                    assert(!self.insert_pair_ok(assoc@, idim as int, i as int));
                }
                return false;
            }
            let mut j: usize = 0;
            while j < seq.len()
                invariant
                    self.wf(),
                    seq@ == seq_sewing(idim as int, N as int),
                    forall|jj: int| 0 <= jj < seq@.len() ==> #[trigger] seq@[jj] < N,
                    keys_distinct(assoc@),
                    i < assoc@.len(),
                    d1 == assoc@[i as int].0,
                    d2 == assoc@[i as int].1,
                    d1.0 < self.len(),
                    d2.0 < self.len(),
                    j <= seq@.len(),
                    forall|jj: int| 0 <= jj < j && is_key(assoc@, #[trigger] self.alpha(d1.0 as int, seq@[jj] as int))
                        ==> partner(assoc@, self.alpha(d1.0 as int, seq@[jj] as int)) == self.alpha(d2.0 as int, seq@[jj] as int),
                decreases seq@.len() - j,
            {
                let a1 = self.get_alpha(&d1, seq[j]);
                let a2 = self.get_alpha(&d2, seq[j]);
                match Self::lookup(assoc, a1) {
                    Some(d) => {
                        if d.0 != a2.0 {
                            proof {
                                assert(is_key(assoc@, self.alpha(d1.0 as int, seq@[j as int] as int)));
                                assert(!self.insert_pair_links(assoc@, idim as int, i as int));
                                assert(!self.insert_pair_ok(assoc@, idim as int, i as int));
                            }
                            return false;
                        }
                    },
                    None => {},
                }
                j = j + 1;
            }
            let mut j: usize = 0;
            while j < seq.len()
                invariant
                    self.wf(),
                    seq@ == seq_sewing(idim as int, N as int),
                    forall|jj: int| 0 <= jj < seq@.len() ==> #[trigger] seq@[jj] < N,
                    i < assoc@.len(),
                    d1 == assoc@[i as int].0,
                    d2 == assoc@[i as int].1,
                    d1.0 < self.len(),
                    d2.0 < self.len(),
                    j <= seq@.len(),
                    forall|jj: int| 0 <= jj < j && inverse_partner(assoc@, #[trigger] self.alpha(d2.0 as int, seq@[jj] as int), assoc@.len() as int) >= 0
                        ==> inverse_partner(assoc@, self.alpha(d2.0 as int, seq@[jj] as int), assoc@.len() as int) == self.alpha(d1.0 as int, seq@[jj] as int),
                decreases seq@.len() - j,
            {
                let a1 = self.get_alpha(&d1, seq[j]);
                let a2 = self.get_alpha(&d2, seq[j]);
                match Self::inverse_lookup(assoc, a2) {
                    Some(d) => {
                        if d.0 != a1.0 {
                            proof {
                                assert(inverse_partner(assoc@, self.alpha(d2.0 as int, seq@[j as int] as int), assoc@.len() as int) >= 0);
                                assert(!self.insert_pair_links(assoc@, idim as int, i as int));
                                assert(!self.insert_pair_ok(assoc@, idim as int, i as int));
                            }
                            return false;
                        }
                    },
                    None => {},
                }
                j = j + 1;
            }
            proof {
                assert(self.insert_pair_links(assoc@, idim as int, i as int));
            }
            let start = self.get_alpha(&d1, idim + 1);
            let ghost n = choose|n: nat| self.insert_walk_ends(assoc@, start.0 as int, idim as int, n);
            let mut d = start;
            let ghost mut steps: nat = 0;
            assert(self.alpha(d1.0 as int, idim + 1) < self.len());
            while Self::lookup(assoc, d).is_none()
                invariant
                    self.wf(),
                    keys_distinct(assoc@),
                    idim < self.ndims,
                    idim + 1 < N,
                    d.0 < self.len(),
                    self.insert_walk_ends(assoc@, start.0 as int, idim as int, n),
                    steps <= n,
                    d.0 == self.insert_walk(start.0 as int, idim as int, steps),
                decreases n - steps,
            {
                let a = self.get_alpha(&d, idim);
                assert(self.alpha(d.0 as int, idim as int) < self.len());
                d = self.get_alpha(&a, idim + 1);
                assert(self.alpha(a.0 as int, idim + 1) < self.len());
                proof {
                    if steps == n {
                        assert(is_key(assoc@, self.insert_walk(start.0 as int, idim as int, n)));
                    }
                    steps = steps + 1;
                }
            }
            proof {
                let c = choose|m: nat| self.insert_walk_ends(assoc@, start.0 as int, idim as int, m);
                if c < steps {
                    assert(!is_key(assoc@, self.insert_walk(start.0 as int, idim as int, c)));
                } else if c > steps {
                    assert(!is_key(assoc@, self.insert_walk(start.0 as int, idim as int, steps)));
                }
                assert(d.0 == self.insert_walk_end(assoc@, start.0 as int, idim as int));
            }
            let p = Self::lookup(assoc, d).unwrap();
            let a2 = self.get_alpha(&d2, idim);
            if p.0 != a2.0 {
                proof {
                    assert(!self.insert_pair_ok(assoc@, idim as int, i as int));
                }
                return false;
            }
            i = i + 1;
        }
        true
    }

    /// alpha(`idim`) of dart `x` after gluing the first `m` pairs of
    /// `assoc` in turn: the partner of a key, the key of a partner.
    pub open spec fn inserted_alpha(&self, assoc: Seq<(DartIndex, DartIndex)>, idim: int, x: int, m: int) -> int
        decreases m,
    {
        if m <= 0 {
            self.alpha(x, idim)
        } else if x == assoc[m - 1].0.0 {
            assoc[m - 1].1.0 as int
        } else if x == assoc[m - 1].1.0 {
            assoc[m - 1].0.0 as int
        } else {
            self.inserted_alpha(assoc, idim, x, m - 1)
        }
    }

    /// Inserts the cell listed by `assoc` along alpha(`idim`) if it is
    /// insertable: each key and its partner are linked to each other, pair
    /// after pair. Returns whether it was inserted.
    pub fn insert(&mut self, dart1: &DartIndex, dart2: &DartIndex, idim: usize, assoc: &Vec<(DartIndex, DartIndex)>) -> (r: bool)
        requires
            old(self).wf(),
            idim < old(self).ndims,
            assoc@.len() > 0 ==> idim + 1 < N,
            old(self).insert_check_defined(assoc@, idim as int),
        ensures
            final(self).wf(),
            r == forall|i: int| 0 <= i < assoc@.len() ==> #[trigger] old(self).insert_pair_ok(assoc@, idim as int, i),
            !r ==> *final(self) == *old(self),
            r ==> final(self).only_alpha_changed(old(self), idim as int),
            r ==> forall|x: int| 0 <= x < old(self).len() ==> #[trigger] final(self).alpha(x, idim as int)
                == old(self).inserted_alpha(assoc@, idim as int, x, assoc@.len() as int),
    {
        if !self.is_insertable(dart1, dart2, idim, assoc) {
            return false;
        }
        let ghost o = *old(self);
        let mut i: usize = 0;
        while i < assoc.len()
            invariant
                self.wf(),
                o.wf(),
                idim < N,
                forall|k: int| 0 <= k < assoc@.len() ==> (#[trigger] assoc@[k]).0.0 < o.len() && assoc@[k].1.0 < o.len(),
                i <= assoc@.len(),
                self.only_alpha_changed(&o, idim as int),
                forall|x: int| 0 <= x < o.len() ==> #[trigger] self.alpha(x, idim as int) == o.inserted_alpha(assoc@, idim as int, x, i as int),
            decreases assoc@.len() - i,
        {
            let (d1, d2) = assoc[i];
            let ghost before = *self;
            self.set_dart_alpha(d2.0, idim, d1);
            self.set_dart_alpha(d1.0, idim, d2);
            proof {
                assert forall|d: int| 0 <= d < o.len() implies {
                    &&& (#[trigger] self.darts@[d]).init == o.darts@[d].init
                    &&& self.darts@[d].attributes@ == o.darts@[d].attributes@
                    &&& self.darts@[d].links@ == o.darts@[d].links@
                } by {
                    assert(before.darts@[d].init == o.darts@[d].init);
                }
                assert forall|d: int, k: int| 0 <= d < o.len() && 0 <= k < N && k != idim implies #[trigger] self.alpha(d, k) == o.alpha(d, k) by {
                    assert(before.alpha(d, k) == o.alpha(d, k));
                }
                assert forall|x: int| 0 <= x < o.len() implies #[trigger] self.alpha(x, idim as int) == o.inserted_alpha(assoc@, idim as int, x, i + 1) by {
                    assert(before.alpha(x, idim as int) == o.inserted_alpha(assoc@, idim as int, x, i as int));
                }
            }
            i = i + 1;
        }
        true
    }
}

} // verus!
