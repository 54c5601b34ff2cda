//! Cutting a cell out keeps the alpha links involutions: the walk through
//! the cell from one outside neighbour ends at the other, and back.

use vstd::prelude::*;
use crate::index::DartIndex;
use crate::orbits::seq_without;
use crate::iterators::ids;
use super::NGMap;

verus! {

impl<const N: usize, const NA: usize, const NL: usize> NGMap<N, NA, NL> {
    /// Every link at or above the dimension leads a dart to itself or to
    /// dart 0.
    pub open spec fn flat_above(&self) -> bool {
        forall|x: int, k: int| 0 <= x < self.len() && self.ndims <= k < N ==> #[trigger] self.alpha(x, k) == x || self.alpha(x, k) == 0
    }

    /// Dart 0, the placeholder, links only to itself.
    pub open spec fn placeholder_unlinked(&self) -> bool {
        forall|k: int| 0 <= k < N ==> #[trigger] self.alpha(0, k) == 0
    }

    /// With involutive links that lead nowhere above the dimension, the
    /// darts of the cell of a dart in use are in use.
    pub proof fn lemma_cell_in_use(&self, d: int, idim: int)
        requires
            self.wf(),
            self.involutive(),
            self.flat_above(),
            0 <= d < self.len(),
            self.is_init(d),
            0 <= idim < N,
        ensures
            forall|x: int| #[trigger] self.cell(d, idim).contains(x) ==> 0 <= x < self.len() && self.is_init(x),
    {
        let iseq = seq_without(idim, N as int);
        let used = Set::new(|x: int| 0 <= x < self.len() && self.is_init(x));
        assert forall|x: int, j: int| used.contains(x) && 0 <= j < iseq.len() implies {
            let y = #[trigger] self.alpha(x, iseq[j] as int);
            y == x || y == 0 || used.contains(y)
        } by {
            let k = iseq[j] as int;
            assert(iseq.len() == (N - 1) as nat);
            assert(j + 1 < N);
            assert(0 <= k < N);
            if k < self.ndims {
                assert(0 <= self.alpha(x, k) < self.len() && self.is_init(self.alpha(x, k)));
            } else {
                assert(self.alpha(x, k) == x || self.alpha(x, k) == 0);
            }
        }
        assert(self.closed_under(used, iseq));
    }

    /// A cell is closed under every link but alpha(`idim`).
    pub proof fn lemma_cell_step(&self, d: int, idim: int, x: int, k: int)
        requires
            0 <= idim < N,
            0 <= k < N,
            k != idim,
            self.cell(d, idim).contains(x),
        ensures
            ({
                let y = self.alpha(x, k);
                y == x || y == 0 || self.cell(d, idim).contains(y)
            }),
    {
        let iseq = seq_without(idim, N as int);
        self.lemma_orbit_set_closed(d, iseq);
        let jj: int = if k < idim { k } else { k - 1 };
        assert(iseq[jj] == k);
    }

    /// The first exit of a walk is unique.
    pub proof fn lemma_exit_unique(&self, cell: Set<int>, d: int, idim: int, j: int, n1: nat, n2: nat)
        requires
            self.exits_at(cell, d, idim, j, n1),
            self.exits_at(cell, d, idim, j, n2),
        ensures
            n1 == n2,
    {
        if n1 < n2 {
            assert(cell.contains(self.hops(d, idim, j, n1)));
        }
        if n2 < n1 {
            assert(cell.contains(self.hops(d, idim, j, n2)));
        }
    }

    /// Walking back: from the alpha(`idim`) neighbour `w` of the end `z` of
    /// the walk from `u`, the walk runs through the cell in the opposite
    /// order and ends at the alpha(`idim`) neighbour of `u`.
    pub proof fn lemma_walk_back(&self, d: int, idim: int, j: int, u: int, n: nat)
        requires
            self.wf(),
            self.involutive(),
            self.flat_above(),
            self.placeholder_unlinked(),
            0 <= d < self.len(),
            self.is_init(d),
            0 <= idim < self.ndims,
            0 <= j < self.ndims,
            j != idim,
            !self.cell(d, idim).contains(0),
            self.cell(d, idim).contains(u),
            !self.cell(d, idim).contains(self.alpha(u, idim)),
            self.exits_at(self.cell(d, idim), u, idim, j, n),
        ensures
            ({
                let z = self.hops(u, idim, j, n);
                let w = self.alpha(z, idim);
                &&& self.cell(d, idim).contains(w)
                &&& self.alpha(w, idim) == z
                &&& self.exits_at(self.cell(d, idim), w, idim, j, n)
                &&& self.hops(w, idim, j, n) == self.alpha(u, idim)
            }),
    {
        let cell = self.cell(d, idim);
        self.lemma_cell_in_use(d, idim);
        // v(m) = alpha(hops(u, m), j) lies in the cell for m < n
        assert forall|m: nat| m < n implies #[trigger] cell.contains(self.alpha(self.hops(u, idim, j, m), j)) by {
            let h = self.hops(u, idim, j, m);
            if m >= 1 {
                assert(cell.contains(self.hops(u, idim, j, m)));
            }
            assert(cell.contains(h));
            self.lemma_cell_step(d, idim, h, j);
            let v = self.alpha(h, j);
            if v == 0 {
                assert(self.is_init(h) && 0 <= h < self.len());
                assert(self.alpha(0, j) == h);
            }
        }
        // going back m steps from the end
        let w = self.alpha(self.hops(u, idim, j, (n - 1) as nat), j);
        let z = self.hops(u, idim, j, n);
        assert(z == self.alpha(w, idim));
        assert(cell.contains(w));
        assert(self.alpha(z, idim) == w) by {
            assert(self.is_init(w) && 0 <= w < self.len());
        }
        assert forall|m: nat| m <= n - 1 implies #[trigger] self.hops(w, idim, j, m) == self.alpha(self.hops(u, idim, j, (n - 1 - m) as nat), j) by {
            self.lemma_walk_back_steps(d, idim, j, u, n, w, m);
        }
        assert(self.hops(w, idim, j, n) == self.alpha(u, idim)) by {
            let h = self.hops(w, idim, j, (n - 1) as nat);
            assert(h == self.alpha(self.hops(u, idim, j, 0), j));
            assert(self.hops(u, idim, j, 0) == u);
            assert(self.is_init(u) && 0 <= u < self.len());
            assert(self.alpha(h, j) == u);
        }
        assert forall|m: nat| 1 <= m < n implies cell.contains(#[trigger] self.hops(w, idim, j, m)) by {
            assert(self.hops(w, idim, j, m) == self.alpha(self.hops(u, idim, j, (n - 1 - m) as nat), j));
        }
    }

    /// The steps of `lemma_walk_back`, by induction on `m`.
    proof fn lemma_walk_back_steps(&self, d: int, idim: int, j: int, u: int, n: nat, w: int, m: nat)
        requires
            self.wf(),
            self.involutive(),
            self.flat_above(),
            self.placeholder_unlinked(),
            0 <= d < self.len(),
            self.is_init(d),
            0 <= idim < self.ndims,
            0 <= j < self.ndims,
            j != idim,
            self.cell(d, idim).contains(u),
            self.exits_at(self.cell(d, idim), u, idim, j, n),
            forall|x: int| #[trigger] self.cell(d, idim).contains(x) ==> 0 <= x < self.len() && self.is_init(x),
            forall|k: nat| k < n ==> #[trigger] self.cell(d, idim).contains(self.alpha(self.hops(u, idim, j, k), j)),
            w == self.alpha(self.hops(u, idim, j, (n - 1) as nat), j),
            m <= n - 1,
        ensures
            self.hops(w, idim, j, m) == self.alpha(self.hops(u, idim, j, (n - 1 - m) as nat), j),
        decreases m,
    {
        let cell = self.cell(d, idim);
        if m > 0 {
            self.lemma_walk_back_steps(d, idim, j, u, n, w, (m - 1) as nat);
            let i = (n - m) as nat;
            let hi = self.hops(u, idim, j, i);
            let prev = self.hops(w, idim, j, (m - 1) as nat);
            assert(prev == self.alpha(hi, j));
            // hi lies in the cell: it is a step of the walk before its exit
            assert(cell.contains(hi)) by {
                if i >= 1 {
                    assert(i < n);
                } else {
                    assert(hi == u);
                }
            }
            assert(self.alpha(prev, j) == hi) by {
                assert(0 <= hi < self.len() && self.is_init(hi));
            }
            assert(self.hops(w, idim, j, m) == self.alpha(hi, idim));
            // hi = alpha(v, idim) for v = alpha(hops(u, i - 1), j)
            let i1 = (n - 1 - m) as nat;
            assert(i == i1 + 1);
            let v = self.alpha(self.hops(u, idim, j, i1), j);
            assert(hi == self.alpha(v, idim));
            assert(cell.contains(v));
            assert(self.alpha(hi, idim) == v) by {
                assert(0 <= v < self.len() && self.is_init(v));
            }
        }
    }
    /// The last preimage along alpha(`idim`) among the first `m` darts of
    /// `listing` exists exactly when one of them is linked to `y`.
    pub proof fn lemma_last_preimage(&self, listing: Seq<DartIndex>, idim: int, y: int, m: int)
        requires
            0 <= m <= listing.len(),
        ensures
            ({
                let p = self.last_preimage(listing, idim, y, m);
                &&& p < 0 <==> forall|i: int| 0 <= i < m ==> self.alpha((#[trigger] listing[i]).0 as int, idim) != y
                &&& p >= 0 ==> p < m && self.alpha(listing[p].0 as int, idim) == y
            }),
        decreases m,
    {
        if m > 0 {
            self.lemma_last_preimage(listing, idim, y, m - 1);
        }
    }

    /// Cutting a cell out keeps the alpha links involutions. Let `f` be
    /// `self` with the `idim`-cell of the dart `d` in use cut out, relinking
    /// by walks along alpha(`j`), both links below the dimension. Where
    /// the links are involutions, lead nowhere at or above the dimension,
    /// and dart 0 links only to itself, each outside neighbour of the cell
    /// is relinked to a dart whose walk leads back to it, so the links of
    /// `f` are involutions too.
    pub proof fn lemma_excised_keeps_involutive(&self, f: &Self, d: int, listing: Seq<DartIndex>, idim: int, j: int)
        requires
            self.wf(),
            self.involutive(),
            self.flat_above(),
            self.placeholder_unlinked(),
            0 <= d < self.len(),
            self.is_init(d),
            0 <= idim < self.ndims,
            0 <= j < self.ndims,
            j != idim,
            self.excisable(d, idim, j),
            self.is_orbit(d, seq_without(idim, N as int), listing),
            f.excised(self, listing, idim, j),
        ensures
            f.involutive(),
    {
        let o = *self;
        let cell = ids(listing);
        let m = listing.len() as int;
        o.lemma_orbit_ids(d, seq_without(idim, N as int), listing);
        assert(cell == o.cell(d, idim));
        o.lemma_cell_in_use(d, idim);
        assert(!cell.contains(0)) by {
            if cell.contains(0) {
                let i = choose|i: int| 0 <= i < listing.len() && (#[trigger] listing[i]).0 == 0;
                assert(i != 0);
            }
        }
        assert forall|x: int, k: int| 0 <= x < f.len() && f.is_init(x) && 0 <= k < f.ndims implies {
            let e = #[trigger] f.alpha(x, k);
            &&& 0 <= e < f.len()
            &&& f.is_init(e)
            &&& f.alpha(e, k) == x
        } by {
            assert(f.darts@[x].init == (o.darts@[x].init && !cell.contains(x)));
            assert(o.is_init(x) && !cell.contains(x));
            if k != idim {
                let e = o.alpha(x, k);
                assert(f.alpha(x, k) == e);
                assert(0 <= e < o.len() && o.is_init(e) && o.alpha(e, k) == x);
                if cell.contains(e) {
                    o.lemma_cell_step(d, idim, e, k);
                    if x == 0 {
                        assert(o.alpha(0, k) == 0);
                    }
                }
                assert(f.darts@[e].init == (o.darts@[e].init && !cell.contains(e)));
                assert(f.alpha(e, k) == o.alpha(e, k));
            } else {
                o.lemma_last_preimage(listing, idim, x, m);
                let p = o.last_preimage(listing, idim, x, m);
                if p < 0 {
                    let e = o.alpha(x, idim);
                    assert(f.alpha(x, k) == e);
                    assert(0 <= e < o.len() && o.is_init(e) && o.alpha(e, idim) == x);
                    if cell.contains(e) {
                        let i = choose|i: int| 0 <= i < listing.len() && (#[trigger] listing[i]).0 == e;
                        assert(o.alpha(listing[i].0 as int, idim) != x);
                    }
                    o.lemma_last_preimage(listing, idim, e, m);
                    let p2 = o.last_preimage(listing, idim, e, m);
                    if p2 >= 0 {
                        let w2 = listing[p2].0 as int;
                        assert(cell.contains(w2));
                        assert(o.is_init(w2) && 0 <= w2 < o.len());
                        assert(o.alpha(e, idim) == w2);
                    }
                    assert(f.darts@[e].init == (o.darts@[e].init && !cell.contains(e)));
                    assert(f.alpha(e, k) == o.relinked(cell, listing, idim, j, e, m));
                } else {
                    let u = listing[p].0 as int;
                    assert(cell.contains(u));
                    assert(o.alpha(u, idim) == x);
                    assert(o.walk_exits(cell, u, idim, j));
                    let n = choose|n: nat| o.exits_at(cell, u, idim, j, n);
                    let z = o.hops(u, idim, j, n);
                    assert(o.walk_end(cell, u, idim, j) == z);
                    assert(f.alpha(x, k) == z);
                    o.lemma_walk_back(d, idim, j, u, n);
                    let w = o.alpha(z, idim);
                    assert(cell.contains(w) && o.alpha(w, idim) == z);
                    assert(0 <= w < o.len() && o.is_init(w));
                    assert(0 <= z < o.len() && o.is_init(z));
                    assert(!cell.contains(z));
                    let iw = choose|i: int| 0 <= i < listing.len() && (#[trigger] listing[i]).0 == w;
                    o.lemma_last_preimage(listing, idim, z, m);
                    let p2 = o.last_preimage(listing, idim, z, m);
                    assert(o.alpha(listing[iw].0 as int, idim) == z);
                    assert(p2 >= 0);
                    let w2 = listing[p2].0 as int;
                    assert(cell.contains(w2));
                    assert(o.is_init(w2) && 0 <= w2 < o.len());
                    assert(w2 == w);
                    let n2 = choose|n2: nat| o.exits_at(cell, w, idim, j, n2);
                    o.lemma_exit_unique(cell, w, idim, j, n, n2);
                    assert(o.walk_end(cell, w, idim, j) == x);
                    assert(f.darts@[z].init == (o.darts@[z].init && !cell.contains(z)));
                    assert(f.alpha(z, k) == o.relinked(cell, listing, idim, j, z, m));
                }
            }
        }
    }
    /// With involutive links, cutting a cell out does not depend on the
    /// order in which its darts were listed: a dart in use outside the cell
    /// whose alpha(`idim`) neighbour lies in the cell is relinked to the end
    /// of the walk from that neighbour, and every other link of a dart in
    /// use outside the cell stays.
    pub proof fn lemma_excised_plain(&self, f: &Self, d: int, listing: Seq<DartIndex>, idim: int, j: int)
        requires
            self.wf(),
            self.involutive(),
            self.flat_above(),
            0 <= d < self.len(),
            self.is_init(d),
            0 <= idim < self.ndims,
            self.is_orbit(d, seq_without(idim, N as int), listing),
            f.excised(self, listing, idim, j),
        ensures
            forall|x: int| 0 <= x < self.len() ==> #[trigger] f.is_init(x) == (self.is_init(x) && !self.cell(d, idim).contains(x)),
            forall|x: int, k: int| 0 <= x < self.len() && self.is_init(x) && 0 <= k < N ==> #[trigger] f.alpha(x, k) == (
                if self.cell(d, idim).contains(x) {
                    x
                } else if k == idim && self.cell(d, idim).contains(self.alpha(x, idim)) {
                    self.walk_end(self.cell(d, idim), self.alpha(x, idim), idim, j)
                } else {
                    self.alpha(x, k)
                }),
    {
        let o = *self;
        let cell = ids(listing);
        let m = listing.len() as int;
        o.lemma_orbit_ids(d, seq_without(idim, N as int), listing);
        assert(cell == o.cell(d, idim));
        o.lemma_cell_in_use(d, idim);
        assert forall|x: int| 0 <= x < o.len() implies #[trigger] f.is_init(x) == (o.is_init(x) && !o.cell(d, idim).contains(x)) by {
            assert(f.darts@[x].init == (o.darts@[x].init && !cell.contains(x)));
        }
        assert forall|x: int, k: int| 0 <= x < o.len() && o.is_init(x) && 0 <= k < N implies #[trigger] f.alpha(x, k) == (
            if o.cell(d, idim).contains(x) {
                x
            } else if k == idim && o.cell(d, idim).contains(o.alpha(x, idim)) {
                o.walk_end(o.cell(d, idim), o.alpha(x, idim), idim, j)
            } else {
                o.alpha(x, k)
            }) by {
            if !cell.contains(x) && k == idim {
                o.lemma_last_preimage(listing, idim, x, m);
                let p = o.last_preimage(listing, idim, x, m);
                let e = o.alpha(x, idim);
                if p >= 0 {
                    let u = listing[p].0 as int;
                    assert(cell.contains(u));
                    assert(o.is_init(u) && 0 <= u < o.len());
                    assert(e == u);
                } else if cell.contains(e) {
                    let i = choose|i: int| 0 <= i < listing.len() && (#[trigger] listing[i]).0 == e;
                    assert(o.is_init(e) && 0 <= e < o.len());
                    assert(o.alpha(listing[i].0 as int, idim) != x);
                }
            }
        }
    }

    /// With involutive links that lead nowhere at or above the dimension,
    /// the orbit of a dart in use holds only darts in use, and never dart 0
    /// unless it starts there.
    pub proof fn lemma_orbit_darts_in_use(&self, d: int, iseq: Seq<usize>)
        requires
            self.wf(),
            self.involutive(),
            self.flat_above(),
            0 <= d < self.len(),
            self.is_init(d),
            forall|j: int| 0 <= j < iseq.len() ==> #[trigger] iseq[j] < N,
        ensures
            forall|x: int| #[trigger] self.orbit_set(d, iseq).contains(x) ==> 0 <= x < self.len() && self.is_init(x) && (x != 0 || d == 0),
    {
        let used = Set::new(|x: int| 0 <= x < self.len() && self.is_init(x) && (x != 0 || d == 0));
        assert forall|x: int, j: int| used.contains(x) && 0 <= j < iseq.len() implies {
            let y = #[trigger] self.alpha(x, iseq[j] as int);
            y == x || y == 0 || used.contains(y)
        } by {
            let k = iseq[j] as int;
            if k < self.ndims {
                assert(0 <= self.alpha(x, k) < self.len() && self.is_init(self.alpha(x, k)));
            } else {
                assert(self.alpha(x, k) == x || self.alpha(x, k) == 0);
            }
        }
        assert(self.closed_under(used, iseq));
    }

    /// Orbits are symmetric: where the links are involutions that lead
    /// nowhere at or above the dimension, if `e` lies in the orbit of a dart
    /// `d` in use (other than dart 0), then `d` lies in the orbit of `e`. So
    /// two darts lie in the same cell, or are connected, whichever of them
    /// one starts from.
    pub proof fn lemma_orbit_symmetric(&self, d: int, e: int, iseq: Seq<usize>)
        requires
            self.wf(),
            self.involutive(),
            self.flat_above(),
            0 < d < self.len(),
            self.is_init(d),
            forall|j: int| 0 <= j < iseq.len() ==> #[trigger] iseq[j] < N,
            self.orbit_set(d, iseq).contains(e),
        ensures
            self.orbit_set(e, iseq).contains(d),
    {
        self.lemma_orbit_darts_in_use(d, iseq);
        self.lemma_orbit_set_closed(d, iseq);
        let od = self.orbit_set(d, iseq);
        let r = Set::new(|x: int| od.contains(x) && self.orbit_set(x, iseq).contains(d));
        assert(r.contains(d)) by {
            self.lemma_orbit_set_closed(d, iseq);
        }
        assert forall|x: int, j: int| r.contains(x) && 0 <= j < iseq.len() implies {
            let y = #[trigger] self.alpha(x, iseq[j] as int);
            y == x || y == 0 || r.contains(y)
        } by {
            let k = iseq[j] as int;
            let y = self.alpha(x, k);
            if y != x && y != 0 {
                assert(od.contains(y));
                assert(0 <= x < self.len() && self.is_init(x) && x != 0);
                if k >= self.ndims {
                    assert(self.alpha(x, k) == x || self.alpha(x, k) == 0);
                }
                assert(self.alpha(y, k) == x);
                self.lemma_orbit_set_closed(y, iseq);
                assert(self.orbit_set(y, iseq).contains(x));
                assert forall|s: Set<int>| #[trigger] self.closed_under(s, iseq) && s.contains(y) implies s.contains(d) by {
                    assert(s.contains(x));
                }
                assert(self.orbit_set(y, iseq).contains(d));
            }
        }
        assert(self.closed_under(r, iseq));
    }
}

} // verus!
