//! Chamfering: an i-cell is replaced by a chain of new cells up to
//! dimension `n`, one layer of new darts per dimension above `i`, so that
//! for instance a vertex becomes a small face.

use vstd::prelude::*;
use crate::index::DartIndex;
use crate::iterators::ids;
use crate::orbits::seq_without;
use crate::dart::vec_repeat;
use super::NGMap;
use super::extrude::{pos_in, is_pos_table, lemma_pos_in};
use super::copy::last_pos;

verus! {

/// Position `t * w + j` of a `t`-major grid of width `w`, and back.
pub proof fn lemma_grid(rows: int, w: int, t: int, j: int)
    requires
        0 <= t < rows,
        0 <= j < w,
    ensures
        0 <= t * w + j < rows * w,
        (t * w + j) / w == t,
        (t * w + j) % w == j,
{
    assert(0 <= t * w + j < rows * w) by (nonlinear_arith)
        requires
            0 <= t < rows,
            0 <= j < w,
    {
        assert(t * w + j < t * w + w);
        assert(t * w + w == (t + 1) * w);
        assert((t + 1) * w <= rows * w);
    }
    vstd::arithmetic::div_mod::lemma_fundamental_div_mod_converse(t * w + j, w, t, j);
}

/// The dart that stands for dart `y` of the chamfered cell in layer `j`:
/// `y` itself in layer `idim`, otherwise the new dart made for it there.
pub open spec fn ch_phi(darts: Seq<DartIndex>, news: Seq<DartIndex>, idim: int, n: int, j: int, y: int) -> int {
    if j == idim {
        y
    } else {
        news[pos_in(darts, y) * (n - idim) + (j - idim - 1)].0 as int
    }
}

impl<const N: usize, const NA: usize, const NL: usize> NGMap<N, NA, NL> {
    /// alpha(`k`) of the new dart made in layer `j` for the `t`-th dart of
    /// the chamfered cell `darts` (`k <= n`).
    pub open spec fn ch_alpha(&self, darts: Seq<DartIndex>, news: Seq<DartIndex>, idim: int, n: int, t: int, j: int, k: int) -> int {
        let x = darts[t].0 as int;
        if k < idim {
            ch_phi(darts, news, idim, n, j, self.alpha(x, k))
        } else if k < j {
            ch_phi(darts, news, idim, n, j, self.alpha(x, k + 1))
        } else if k == j {
            ch_phi(darts, news, idim, n, j - 1, x)
        } else if k == j + 1 {
            ch_phi(darts, news, idim, n, j + 1, x)
        } else {
            ch_phi(darts, news, idim, n, j, self.alpha(x, k))
        }
    }

    /// Entry `i` of a table of width `n + 1` holds the position in `ds`
    /// of alpha(k) of the `t`-th dart of `ds`, for `i = t * (n + 1) + k`
    /// and `k != idim`.
    pub open spec fn neighbour_entry(&self, ds: Seq<DartIndex>, tab: Seq<usize>, idim: int, n: int, i: int) -> bool {
        let t = i / (n + 1);
        let k = i % (n + 1);
        k != idim ==> tab[i] == pos_in(ds, self.alpha(ds[t].0 as int, k)) && tab[i] < ds.len()
    }

    /// The `idim`-cell of `d` can be chamfered up to dimension `n`: its
    /// darts are linked to no dart 0 along alpha(0..=n) but alpha(`idim`).
    pub open spec fn chamferable(&self, d: int, idim: int, n: int) -> bool {
        forall|x: int, k: int| self.cell(d, idim).contains(x) && 0 <= k <= n && k != idim ==> #[trigger] self.alpha(x, k) != 0
    }

    /// This map is `a` (`old` with the new darts `news` created, `n - idim`
    /// per dart of the cell `darts`) after chamfering: each new dart gets
    /// its alpha(0..=n) links (`ch_alpha`, for the last layer it was made
    /// for), and each dart of the cell is linked along alpha(idim + 1) to
    /// its first new dart.
    pub open spec fn chamfered(&self, old: &Self, a: &Self, darts: Seq<DartIndex>, news: Seq<DartIndex>, idim: int, n: int) -> bool {
        let w = n - idim;
        let m = news.len() as int;
        &&& self.wf()
        &&& self.len() == a.len()
        &&& self.same_books(a)
        &&& forall|e: int| 0 <= e < a.len() ==> {
            &&& (#[trigger] self.darts@[e]).init == a.darts@[e].init
            &&& self.darts@[e].attributes@ == a.darts@[e].attributes@
            &&& self.darts@[e].links@ == a.darts@[e].links@
        }
        &&& forall|e: int, k: int| 0 <= e < a.len() && 0 <= k < N ==> #[trigger] self.alpha(e, k) == (
            if ids(darts).contains(e) && k == idim + 1 {
                news[pos_in(darts, e) * w].0 as int
            } else if last_pos(news, e, m) >= 0 && k <= n {
                old.ch_alpha(darts, news, idim, n, last_pos(news, e, m) / w, idim + 1 + last_pos(news, e, m) % w, k)
            } else {
                a.alpha(e, k)
            })
    }

    /// This map is `old` after chamfering the `idim`-cell of `d` up to
    /// dimension `n`.
    pub open spec fn chamfer_of(&self, old: &Self, d: int, idim: int, n: int) -> bool {
        exists|darts: Seq<DartIndex>, news: Seq<DartIndex>, a: Self|
            #![trigger a.copies_created(old, news), self.chamfered(old, &a, darts, news, idim, n)]
            {
                &&& old.is_orbit(d, seq_without(idim, N as int), darts)
                &&& news.len() == darts.len() * (n - idim)
                &&& a.copies_created(old, news)
                &&& self.chamfered(old, &a, darts, news, idim, n)
            }
    }

    /// Replaces the `idim`-cell of `d` by a chain of new cells up to
    /// dimension `n` (see `chamfered`): `n - idim` new darts per dart of
    /// the cell, one per layer above `idim`.
    pub fn chamfer(&mut self, d: &DartIndex, idim: usize, n: usize)
        requires
            old(self).wf(),
            d.0 < old(self).len(),
            idim < old(self).ndims,
            idim < n,
            n < N,
            old(self).len() * (n + 1) + 1 < usize::MAX,
            old(self).attribute_room(N * (old(self).len() * n)),
            old(self).chamferable(d.0 as int, idim as int, n as int),
        ensures
            final(self).chamfer_of(old(self), d.0 as int, idim as int, n as int),
    {
        let ghost o = *old(self);
        let darts = self.iter_darts_in_cell(*d, idim).items;
        let tt = darts.len();
        let w = n - idim;
        let ghost ds = darts@;
        let ghost len = o.len();
        proof {
            o.lemma_orbit_ids(d.0 as int, seq_without(idim as int, N as int), ds);
            crate::iterators::lemma_distinct_bound(ds, Seq::<DartIndex>::empty(), len);
            assert(tt * (n + 1) <= len * (n + 1)) by (nonlinear_arith)
                requires
                    tt <= len,
            {}
            assert(tt * w <= len * n) by (nonlinear_arith)
                requires
                    tt <= len,
                    w <= n,
            {
                assert(tt * w <= tt * n);
                assert(tt * n <= len * n);
            }
            assert(len * n + len == len * (n + 1)) by (nonlinear_arith);
        }
        let pos = self.pos_table(&darts);
        let mut nb: Vec<usize> = Vec::new();
        let mut t: usize = 0;
        while t < tt
            invariant
                *self == o,
                o.wf(),
                tt == ds.len(),
                darts@ == ds,
                idim < n,
                n < N,
                t <= tt,
                tt * (n + 1) + 1 < usize::MAX,
                ds.no_duplicates(),
                forall|i: int| 0 <= i < ds.len() ==> (#[trigger] ds[i]).0 < o.len(),
                is_pos_table(pos@, ds, o.len()),
                ids(ds) == o.cell(d.0 as int, idim as int),
                o.closed_under(ids(ds), seq_without(idim as int, N as int)),
                o.chamferable(d.0 as int, idim as int, n as int),
                nb@.len() == t * (n + 1),
                forall|i: int| 0 <= i < nb@.len() ==> #[trigger] o.neighbour_entry(ds, nb@, idim as int, n as int, i),
            decreases tt - t,
        {
            let mut k: usize = 0;
            while k <= n
                invariant
                    *self == o,
                    o.wf(),
                    tt == ds.len(),
                    darts@ == ds,
                    idim < n,
                    n < N,
                    t < tt,
                    k <= n + 1,
                    tt * (n + 1) + 1 < usize::MAX,
                    ds.no_duplicates(),
                    forall|i: int| 0 <= i < ds.len() ==> (#[trigger] ds[i]).0 < o.len(),
                    is_pos_table(pos@, ds, o.len()),
                    ids(ds) == o.cell(d.0 as int, idim as int),
                    o.closed_under(ids(ds), seq_without(idim as int, N as int)),
                    o.chamferable(d.0 as int, idim as int, n as int),
                    nb@.len() == t * (n + 1) + k,
                    forall|i: int| 0 <= i < nb@.len() ==> #[trigger] o.neighbour_entry(ds, nb@, idim as int, n as int, i),
                decreases n + 1 - k,
            {
                proof {
                    lemma_grid(tt as int, (n + 1) as int, t as int, k as int);
                }
                let ghost nb_pre = nb@;
                if k == idim {
                    nb.push(0);
                } else {
                    let y = self.get_alpha(&darts[t], k);
                    proof {
                        let x = ds[t as int].0 as int;
                        assert(ids(ds).contains(x));
                        let idx: int = if k < idim { k as int } else { k - 1 };
                        assert(seq_without(idim as int, N as int)[idx] == k);
                        assert(o.alpha(x, seq_without(idim as int, N as int)[idx] as int) == y.0);
                        assert(o.alpha(x, k as int) != 0);
                        assert(ids(ds).contains(y.0 as int));
                        let q = choose|q: int| 0 <= q < ds.len() && #[trigger] ds[q].0 == y.0;
                        lemma_pos_in(ds, q);
                    }
                    nb.push(pos[y.0]);
                }
                proof {
                    assert forall|i: int| 0 <= i < nb@.len() implies #[trigger] o.neighbour_entry(ds, nb@, idim as int, n as int, i) by {
                        if i < nb_pre.len() {
                            assert(o.neighbour_entry(ds, nb_pre, idim as int, n as int, i));
                            assert(nb@[i] == nb_pre[i]);
                        } else {
                            assert(i == t * (n + 1) + k);
                        }
                    }
                }
                k = k + 1;
            }
            proof {
                assert((t + 1) * (n + 1) == t * (n + 1) + (n + 1)) by (nonlinear_arith);
            }
            t = t + 1;
        }
        let m = tt * w;
        proof {
            assert(o.attribute_room(N * m)) by {
                assert(N * m <= N * (len * n)) by (nonlinear_arith)
                    requires
                        m <= len * n,
                {}
            }
        }
        let news = self.copy_create(m);
        let ghost a = *self;
        let ghost ns = news@;
        let mut p: usize = 0;
        while p < m
            invariant
                self.wf(),
                a.wf(),
                o.wf(),
                tt == ds.len(),
                darts@ == ds,
                news@ == ns,
                m == ns.len(),
                m == tt * w,
                w == n - idim,
                idim < n,
                n < N,
                p <= m,
                tt * (n + 1) + 1 < usize::MAX,
                ds.no_duplicates(),
                forall|i: int| 0 <= i < ds.len() ==> (#[trigger] ds[i]).0 < o.len(),
                forall|i: int| 0 <= i < ns.len() ==> 1 <= (#[trigger] ns[i]).0 < a.len(),
                o.len() <= a.len(),
                nb@.len() == tt * (n + 1),
                forall|i: int| 0 <= i < nb@.len() ==> #[trigger] o.neighbour_entry(ds, nb@, idim as int, n as int, i),
                self.len() == a.len(),
                self.same_books(&a),
                forall|e: int| 0 <= e < a.len() ==> {
                    &&& (#[trigger] self.darts@[e]).init == a.darts@[e].init
                    &&& self.darts@[e].attributes@ == a.darts@[e].attributes@
                    &&& self.darts@[e].links@ == a.darts@[e].links@
                },
                forall|e: int, k: int| 0 <= e < a.len() && 0 <= k < N ==> #[trigger] self.alpha(e, k) == (
                    if last_pos(ns, e, p as int) >= 0 && k <= n {
                        o.ch_alpha(ds, ns, idim as int, n as int, last_pos(ns, e, p as int) / (w as int), idim + 1 + last_pos(ns, e, p as int) % (w as int), k)
                    } else {
                        a.alpha(e, k)
                    }),
            decreases m - p,
        {
            let t = p / w;
            let jj = p % w;
            proof {
                vstd::arithmetic::div_mod::lemma_fundamental_div_mod(p as int, w as int);
                assert(p == t * w + jj) by (nonlinear_arith)
                    requires
                        p == w * t + jj,
                {}
                assert(t < tt) by (nonlinear_arith)
                    requires
                        p == t * w + jj,
                        p < tt * w,
                        0 <= jj,
                        w > 0,
                {
                    if t >= tt {
                        assert(t * w >= tt * w);
                    }
                }
                lemma_grid(tt as int, w as int, t as int, jj as int);
            }
            let j = idim + 1 + jj;
            let x = news[p];
            let ghost pre = *self;
            let mut k: usize = 0;
            while k <= n
                invariant
                    self.wf(),
                    a.wf(),
                    o.wf(),
                    tt == ds.len(),
                    darts@ == ds,
                    news@ == ns,
                    m == ns.len(),
                    m == tt * w,
                    w == n - idim,
                    idim < n,
                    n < N,
                    p < m,
                    t < tt,
                    jj < w,
                    p == t * w + jj,
                    j == idim + 1 + jj,
                    x == ns[p as int],
                    k <= n + 1,
                    tt * (n + 1) + 1 < usize::MAX,
                    ds.no_duplicates(),
                    forall|i: int| 0 <= i < ds.len() ==> (#[trigger] ds[i]).0 < o.len(),
                    o.len() <= a.len(),
                    forall|i: int| 0 <= i < ns.len() ==> 1 <= (#[trigger] ns[i]).0 < a.len(),
                    nb@.len() == tt * (n + 1),
                    forall|i: int| 0 <= i < nb@.len() ==> #[trigger] o.neighbour_entry(ds, nb@, idim as int, n as int, i),
                    self.len() == a.len(),
                    self.same_books(&pre),
                    forall|e: int| 0 <= e < a.len() ==> {
                        &&& (#[trigger] self.darts@[e]).init == pre.darts@[e].init
                        &&& self.darts@[e].attributes@ == pre.darts@[e].attributes@
                        &&& self.darts@[e].links@ == pre.darts@[e].links@
                    },
                    forall|e: int, kk: int| 0 <= e < a.len() && 0 <= kk < N ==> #[trigger] self.alpha(e, kk) == (
                        if e == x.0 && kk < k {
                            o.ch_alpha(ds, ns, idim as int, n as int, t as int, j as int, kk)
                        } else {
                            pre.alpha(e, kk)
                        }),
                decreases n + 1 - k,
            {
                let v: usize;
                if k < idim {
                    proof {
                        lemma_grid(tt as int, (n + 1) as int, t as int, k as int);
                        assert(o.neighbour_entry(ds, nb@, idim as int, n as int, t * (n + 1) + k));
                    }
                    let q = nb[t * (n + 1) + k];
                    proof {
                        lemma_grid(tt as int, w as int, q as int, jj as int);
                    }
                    v = news[q * w + jj].0;
                } else if k < j {
                    proof {
                        lemma_grid(tt as int, (n + 1) as int, t as int, (k + 1) as int);
                        assert(o.neighbour_entry(ds, nb@, idim as int, n as int, t * (n + 1) + (k + 1)));
                    }
                    let q = nb[t * (n + 1) + k + 1];
                    proof {
                        lemma_grid(tt as int, w as int, q as int, jj as int);
                    }
                    v = news[q * w + jj].0;
                } else if k == j {
                    if jj == 0 {
                        v = darts[t].0;
                    } else {
                        proof {
                            lemma_grid(tt as int, w as int, t as int, (jj - 1) as int);
                            lemma_pos_in(ds, t as int);
                        }
                        v = news[t * w + jj - 1].0;
                    }
                } else if k == j + 1 {
                    proof {
                        lemma_grid(tt as int, w as int, t as int, (jj + 1) as int);
                        lemma_pos_in(ds, t as int);
                    }
                    v = news[t * w + jj + 1].0;
                } else {
                    proof {
                        lemma_grid(tt as int, (n + 1) as int, t as int, k as int);
                        assert(o.neighbour_entry(ds, nb@, idim as int, n as int, t * (n + 1) + k));
                    }
                    let q = nb[t * (n + 1) + k];
                    proof {
                        lemma_grid(tt as int, w as int, q as int, jj as int);
                    }
                    v = news[q * w + jj].0;
                }
                proof {
                    assert(v == o.ch_alpha(ds, ns, idim as int, n as int, t as int, j as int, k as int));
                    assert(v < a.len());
                }
                let ghost before = *self;
                self.set_dart_alpha(x.0, k, DartIndex(v));
                proof {
                    assert forall|e: int| 0 <= e < a.len() implies {
                        &&& (#[trigger] self.darts@[e]).init == pre.darts@[e].init
                        &&& self.darts@[e].attributes@ == pre.darts@[e].attributes@
                        &&& self.darts@[e].links@ == pre.darts@[e].links@
                    } by {
                        assert(before.darts@[e].init == pre.darts@[e].init);
                        assert(self.darts@[e].init == before.darts@[e].init);
                    }
                }
                k = k + 1;
            }
            proof {
                assert forall|e: int, kk: int| 0 <= e < a.len() && 0 <= kk < N implies #[trigger] self.alpha(e, kk) == (
                    if last_pos(ns, e, p + 1) >= 0 && kk <= n {
                        o.ch_alpha(ds, ns, idim as int, n as int, last_pos(ns, e, p + 1) / (w as int), idim + 1 + last_pos(ns, e, p + 1) % (w as int), kk)
                    } else {
                        a.alpha(e, kk)
                    }) by {
                    if e == x.0 {
                        assert(last_pos(ns, e, p + 1) == p);
                        if kk > n {
                            assert(self.alpha(e, kk) == pre.alpha(e, kk));
                            if last_pos(ns, e, p as int) >= 0 {
                            }
                        }
                    } else {
                        assert(last_pos(ns, e, p + 1) == last_pos(ns, e, p as int));
                        assert(self.alpha(e, kk) == pre.alpha(e, kk));
                    }
                }
                assert forall|e: int| 0 <= e < a.len() implies {
                    &&& (#[trigger] self.darts@[e]).init == a.darts@[e].init
                    &&& self.darts@[e].attributes@ == a.darts@[e].attributes@
                    &&& self.darts@[e].links@ == a.darts@[e].links@
                } by {
                    assert(pre.darts@[e].init == a.darts@[e].init);
                }
            }
            p = p + 1;
        }
        let ghost mid = *self;
        let mut t: usize = 0;
        while t < tt
            invariant
                self.wf(),
                mid.wf(),
                tt == ds.len(),
                darts@ == ds,
                news@ == ns,
                m == ns.len(),
                m == tt * w,
                w == n - idim,
                idim < n,
                n < N,
                t <= tt,
                ds.no_duplicates(),
                forall|i: int| 0 <= i < ds.len() ==> (#[trigger] ds[i]).0 < o.len(),
                forall|i: int| 0 <= i < ns.len() ==> 1 <= (#[trigger] ns[i]).0 < a.len(),
                o.len() <= a.len(),
                mid.len() == a.len(),
                self.len() == mid.len(),
                self.same_books(&mid),
                forall|e: int| 0 <= e < a.len() ==> {
                    &&& (#[trigger] self.darts@[e]).init == mid.darts@[e].init
                    &&& self.darts@[e].attributes@ == mid.darts@[e].attributes@
                    &&& self.darts@[e].links@ == mid.darts@[e].links@
                },
                forall|e: int, k: int| 0 <= e < a.len() && 0 <= k < N ==> #[trigger] self.alpha(e, k) == (
                    if ids(ds.take(t as int)).contains(e) && k == idim + 1 {
                        ns[pos_in(ds, e) * w].0 as int
                    } else {
                        mid.alpha(e, k)
                    }),
            decreases tt - t,
        {
            proof {
                lemma_grid(tt as int, w as int, t as int, 0);
                lemma_pos_in(ds, t as int);
            }
            let x = darts[t];
            let v = news[t * w];
            let ghost before = *self;
            self.set_dart_alpha(x.0, idim + 1, v);
            proof {
                assert forall|e: int, k: int| 0 <= e < a.len() && 0 <= k < N implies #[trigger] self.alpha(e, k) == (
                    if ids(ds.take(t + 1)).contains(e) && k == idim + 1 {
                        ns[pos_in(ds, e) * w].0 as int
                    } else {
                        mid.alpha(e, k)
                    }) by {
                    if ids(ds.take(t + 1)).contains(e) {
                        let i = choose|i: int| 0 <= i < t + 1 && #[trigger] ds.take(t + 1)[i].0 == e;
                        if i < t {
                            assert(ds.take(t as int)[i].0 == e);
                        }
                    }
                    if ids(ds.take(t as int)).contains(e) {
                        let i = choose|i: int| 0 <= i < t && #[trigger] ds.take(t as int)[i].0 == e;
                        assert(ds.take(t + 1)[i].0 == e);
                        assert(ds[i] != ds[t as int]);
                    }
                    if e == x.0 {
                        assert(ds.take(t + 1)[t as int].0 == e);
                    }
                }
                assert forall|e: int| 0 <= e < a.len() implies {
                    &&& (#[trigger] self.darts@[e]).init == mid.darts@[e].init
                    &&& self.darts@[e].attributes@ == mid.darts@[e].attributes@
                    &&& self.darts@[e].links@ == mid.darts@[e].links@
                } by {
                    assert(before.darts@[e].init == mid.darts@[e].init);
                    assert(self.darts@[e].init == before.darts@[e].init);
                }
            }
            t = t + 1;
        }
        proof {
            assert(ds.take(tt as int) =~= ds);
            assert(self.chamfered(&o, &a, ds, ns, idim as int, n as int)) by {
                assert forall|e: int, k: int| 0 <= e < a.len() && 0 <= k < N implies #[trigger] self.alpha(e, k) == (
                    if ids(ds).contains(e) && k == idim + 1 {
                        ns[pos_in(ds, e) * w].0 as int
                    } else if last_pos(ns, e, ns.len() as int) >= 0 && k <= n {
                        o.ch_alpha(ds, ns, idim as int, n as int, last_pos(ns, e, ns.len() as int) / (w as int), idim + 1 + last_pos(ns, e, ns.len() as int) % (w as int), k)
                    } else {
                        a.alpha(e, k)
                    }) by {
                    assert(mid.alpha(e, k) == (
                        if last_pos(ns, e, m as int) >= 0 && k <= n {
                            o.ch_alpha(ds, ns, idim as int, n as int, last_pos(ns, e, m as int) / (w as int), idim + 1 + last_pos(ns, e, m as int) % (w as int), k)
                        } else {
                            a.alpha(e, k)
                        }));
                }
                assert forall|e: int| 0 <= e < a.len() implies {
                    &&& (#[trigger] self.darts@[e]).init == a.darts@[e].init
                    &&& self.darts@[e].attributes@ == a.darts@[e].attributes@
                    &&& self.darts@[e].links@ == a.darts@[e].links@
                } by {
                    assert(mid.darts@[e].init == a.darts@[e].init);
                }
            }
            assert(a.copies_created(&o, ns));
            assert(o.is_orbit(d.0 as int, seq_without(idim as int, N as int), ds));
            assert(self.chamfer_of(&o, d.0 as int, idim as int, n as int));
        }
    }
}

} // verus!
