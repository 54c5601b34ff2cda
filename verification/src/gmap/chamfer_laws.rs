//! Chamfering keeps the alpha links involutions: each new dart stands for
//! a dart of the chamfered cell in one layer, and its links lead to the
//! darts standing for that dart's neighbours, which lead back.

use vstd::prelude::*;
use crate::index::DartIndex;
use crate::iterators::ids;
use crate::orbits::seq_without;
use super::NGMap;
use super::extrude::{pos_in, lemma_pos_in};
use super::copy::{last_pos, lemma_last_pos, reserve_run, lemma_reserve_run_fresh};
use super::chamfer::{ch_phi, lemma_grid};
use crate::index_allocator::{valid_from, allocated_from, free_set_of};

verus! {

impl<const N: usize, const NA: usize, const NL: usize> NGMap<N, NA, NL> {
    /// What the chamfer law works with: `self` is `before` chamfered with
    /// the cell listing `darts`, the new darts `news` (`n - idim` per dart
    /// of the cell, the dart for layer `j` of the `t`-th dart at position
    /// `t * (n - idim) + j - idim - 1`) and the map `a` once they were
    /// created; the new darts are distinct and were not in use.
    pub open spec fn chamfer_setting(&self, before: &Self, a: &Self, darts: Seq<DartIndex>, news: Seq<DartIndex>, d: int, idim: int, n: int) -> bool {
        let w = n - idim;
        &&& before.wf()
        &&& before.involutive()
        &&& before.flat_above()
        &&& 0 < d < before.len()
        &&& before.is_init(d)
        &&& 0 <= idim < n
        &&& n < before.ndims
        &&& before.chamferable(d, idim, n)
        &&& before.is_orbit(d, seq_without(idim, N as int), darts)
        &&& ids(darts) == before.cell(d, idim)
        &&& news.len() == darts.len() * w
        &&& a.copies_created(before, news)
        &&& self.chamfered(before, a, darts, news, idim, n)
        &&& forall|i: int, j: int| 0 <= i < j < news.len() ==> (#[trigger] news[i]).0 != (#[trigger] news[j]).0
        &&& forall|i: int| 0 <= i < news.len() ==> !((#[trigger] news[i]).0 < before.len() && before.is_init(news[i].0 as int))
        &&& forall|x: int| #[trigger] before.cell(d, idim).contains(x) ==> 0 <= x < before.len() && before.is_init(x)
    }

    /// The new dart for layer `j` of the `t`-th dart of the cell is in use,
    /// and its links are those `ch_alpha` gives up to `n`, itself above.
    pub proof fn lemma_chamfer_new_dart(&self, before: &Self, a: &Self, darts: Seq<DartIndex>, news: Seq<DartIndex>, d: int, idim: int, n: int, t: int, j: int)
        requires
            self.chamfer_setting(before, a, darts, news, d, idim, n),
            0 <= t < darts.len(),
            idim < j <= n,
        ensures
            ({
                let p = t * (n - idim) + (j - idim - 1);
                let e = news[p].0 as int;
                &&& 0 <= p < news.len()
                &&& e == ch_phi(darts, news, idim, n, j, darts[t].0 as int)
                &&& 0 <= e < self.len()
                &&& self.is_init(e)
                &&& !before.cell(d, idim).contains(e)
                &&& forall|k: int| 0 <= k < before.ndims ==> #[trigger] self.alpha(e, k) == (
                    if k <= n { before.ch_alpha(darts, news, idim, n, t, j, k) } else { e })
            }),
    {
        let w = n - idim;
        let m = news.len() as int;
        let p = t * w + (j - idim - 1);
        lemma_grid(darts.len() as int, w, t, j - idim - 1);
        let e = news[p].0 as int;
        assert(darts.no_duplicates());
        lemma_pos_in(darts, t);
        lemma_last_pos(news, e, m);
        let lp = last_pos(news, e, m);
        if lp != p {
            if lp < p {
                assert(news[lp].0 != news[p].0);
            } else {
                assert(news[p].0 != news[lp].0);
            }
        }
        assert(a.fresh_from(before, e, p));
        assert(!before.cell(d, idim).contains(e)) by {
            if before.cell(d, idim).contains(e) {
                assert(before.is_init(e) && e < before.len());
            }
        }
        assert(!ids(darts).contains(e));
        assert(self.darts@[e].init == a.darts@[e].init);
        assert forall|k: int| 0 <= k < before.ndims implies #[trigger] self.alpha(e, k) == (
            if k <= n { before.ch_alpha(darts, news, idim, n, t, j, k) } else { e }) by {
            assert(lp / w == t && lp % w == j - idim - 1);
            if k > n {
                assert(a.alpha(e, k) == e);
            }
        }
    }

    /// The setting of the chamfer laws, from the contract of `chamfer`.
    proof fn lemma_chamfer_setup(&self, before: &Self, d: int, idim: int, n: int) -> (r: (Seq<DartIndex>, Seq<DartIndex>, Self))
        requires
            before.wf(),
            before.involutive(),
            before.flat_above(),
            before.free_indices_unused(),
            0 < d < before.len(),
            before.is_init(d),
            0 <= idim < n,
            n < before.ndims,
            before.chamferable(d, idim, n),
            before.len() * (n + 1) + 1 < usize::MAX,
            self.chamfer_of(before, d, idim, n),
        ensures
            self.chamfer_setting(before, &r.2, r.0, r.1, d, idim, n),
    {
        let (darts, news, a) = choose|darts: Seq<DartIndex>, news: Seq<DartIndex>, a: Self| {
            &&& before.is_orbit(d, seq_without(idim, N as int), darts)
            &&& news.len() == darts.len() * (n - idim)
            &&& #[trigger] a.copies_created(before, news)
            &&& #[trigger] self.chamfered(before, &a, darts, news, idim, n)
        };
        let w = n - idim;
        let m = news.len() as int;
        let tt = darts.len() as int;
        before.lemma_orbit_ids(d, seq_without(idim, N as int), darts);
        before.lemma_cell_in_use(d, idim);
        crate::iterators::lemma_distinct_bound(darts, Seq::<DartIndex>::empty(), before.len() as int);
        assert(m <= before.len() * n) by (nonlinear_arith)
            requires
                m == tt * w,
                0 <= tt <= before.len(),
                0 < w <= n,
        {
            assert(tt * w <= tt * n);
            assert(tt * n <= before.len() * n);
        }
        assert(before.len() * n + before.len() == before.len() * (n + 1)) by (nonlinear_arith);
        let count = before.dart_index_allocator.count;
        let nodes = before.dart_index_allocator.nodes@;
        assert(valid_from(count, nodes, 1)) by {
            assert forall|k: int| #[trigger] free_set_of(nodes).contains(k) implies 1 <= k < count by {
                let jj = choose|jj: int| 0 <= jj < nodes.len() && #[trigger] nodes[jj].holds(k);
                assert(1 <= nodes[jj].start && nodes[jj].end() <= before.len());
            }
        }
        lemma_reserve_run_fresh(count, nodes, 1, m as nat);
        assert(news == reserve_run(count, nodes, m as nat).0);
        assert forall|i: int| 0 <= i < news.len() implies !((#[trigger] news[i]).0 < before.len() && before.is_init(news[i].0 as int)) by {
            let x = news[i].0 as int;
            if x < before.len() && before.is_init(x) {
                assert(!allocated_from(count, nodes, 1).contains(x));
                assert(before.dart_index_allocator.free_set().contains(x));
            }
        }
        assert(self.chamfer_setting(before, &a, darts, news, d, idim, n));
        (darts, news, a)
    }

    /// Chamfering keeps the alpha links involutions. Let this map come
    /// from `before` by `chamfer(d, idim, n)`, as its contract states, where
    /// the links of `before` are involutions that lead nowhere at or above
    /// the dimension, its freed dart indices are out of use, `d` is in use
    /// and `n` is below the dimension. Then the links of this map are
    /// involutions.
    pub proof fn lemma_chamfer_keeps_involutive(&self, before: &Self, d: int, idim: int, n: int)
        requires
            before.wf(),
            before.involutive(),
            before.flat_above(),
            before.free_indices_unused(),
            0 < d < before.len(),
            before.is_init(d),
            0 <= idim < n,
            n < before.ndims,
            before.chamferable(d, idim, n),
            before.len() * (n + 1) + 1 < usize::MAX,
            self.chamfer_of(before, d, idim, n),
        ensures
            self.involutive(),
    {
        let (darts, news, a) = self.lemma_chamfer_setup(before, d, idim, n);
        assert forall|e: int, k: int| 0 <= e < self.len() && self.is_init(e) && 0 <= k < self.ndims implies {
            let f = #[trigger] self.alpha(e, k);
            &&& 0 <= f < self.len()
            &&& self.is_init(f)
            &&& self.alpha(f, k) == e
        } by {
            self.lemma_chamfer_involutive_at(before, &a, darts, news, d, idim, n, e, k);
        }
    }

    /// The darts in use other than dart 0, as a set.
    pub open spec fn used_set(&self) -> Set<int> {
        Set::new(|x: int| 1 <= x < self.len() && self.is_init(x))
    }

    /// `all_darts` lists the darts of `used_set`, each once.
    pub proof fn lemma_all_darts_count(&self)
        ensures
            self.used_set().finite(),
            self.all_darts().len() == self.used_set().len(),
    {
        let s = self.all_darts();
        self.lemma_init_darts_below(self.len() as int);
        assert(s.no_duplicates()) by {
            assert forall|i: int, j: int| 0 <= i < s.len() && 0 <= j < s.len() && i != j implies s[i] != s[j] by {
                if i < j {
                    assert(s[i] < s[j]);
                } else {
                    assert(s[j] < s[i]);
                }
            }
        }
        assert(s.to_set() =~= self.used_set()) by {
            assert forall|x: int| self.used_set().contains(x) implies s.to_set().contains(x) by {
                let i = choose|i: int| 0 <= i < s.len() && #[trigger] s[i] == x;
            }
        }
        s.unique_seq_to_set();
    }

    /// Chamfering adds `n - idim` darts per dart of the cell. Under the
    /// conditions of `lemma_chamfer_keeps_involutive`, the darts in use
    /// after chamfering are those before and, for each dart of the
    /// `idim`-cell of `d`, one new dart per layer above `idim` up to `n`.
    pub proof fn lemma_chamfer_adds_darts(&self, before: &Self, d: int, idim: int, n: int)
        requires
            before.wf(),
            before.involutive(),
            before.flat_above(),
            before.free_indices_unused(),
            0 < d < before.len(),
            before.is_init(d),
            0 <= idim < n,
            n < before.ndims,
            before.chamferable(d, idim, n),
            before.len() * (n + 1) + 1 < usize::MAX,
            self.chamfer_of(before, d, idim, n),
        ensures
            before.cell(d, idim).finite(),
            self.all_darts().len() == before.all_darts().len() + before.cell(d, idim).len() * (n - idim),
    {
        let (darts, news, a) = self.lemma_chamfer_setup(before, d, idim, n);
        let m = news.len() as int;
        let cell = before.cell(d, idim);
        self.lemma_all_darts_count();
        before.lemma_all_darts_count();
        let cs = crate::iterators::to_ints(darts);
        assert(cs.no_duplicates()) by {
            assert forall|i: int, j: int| 0 <= i < cs.len() && 0 <= j < cs.len() && i != j implies cs[i] != cs[j] by {
                assert(darts[i] != darts[j]);
            }
        }
        assert(cs.to_set() =~= cell) by {
            assert forall|x: int| cell.contains(x) implies cs.to_set().contains(x) by {
                assert(ids(darts).contains(x));
                let i = choose|i: int| 0 <= i < darts.len() && (#[trigger] darts[i]).0 == x;
                assert(cs[i] == x);
            }
            assert forall|x: int| cs.to_set().contains(x) implies cell.contains(x) by {
                let i = choose|i: int| 0 <= i < cs.len() && cs[i] == x;
                assert(darts[i].0 == x);
                assert(ids(darts).contains(x));
            }
        }
        cs.unique_seq_to_set();
        let ns = crate::iterators::to_ints(news);
        assert(ns.no_duplicates()) by {
            assert forall|i: int, j: int| 0 <= i < ns.len() && 0 <= j < ns.len() && i != j implies ns[i] != ns[j] by {
                if i < j {
                    assert(news[i].0 != news[j].0);
                } else {
                    assert(news[j].0 != news[i].0);
                }
            }
        }
        ns.unique_seq_to_set();
        let nset = ns.to_set();
        assert(nset.disjoint(before.used_set())) by {
            assert forall|x: int| nset.contains(x) implies !before.used_set().contains(x) by {
                let i = choose|i: int| 0 <= i < ns.len() && ns[i] == x;
                assert(news[i].0 == x);
            }
        }
        assert(self.used_set() =~= before.used_set() + nset) by {
            assert forall|x: int| self.used_set().contains(x) implies (before.used_set() + nset).contains(x) by {
                lemma_last_pos(news, x, m);
                let lp = last_pos(news, x, m);
                if lp >= 0 {
                    assert(ns[lp] == x);
                } else {
                    assert(x < before.len() && a.dart_unchanged(before, x));
                    assert(self.darts@[x].init == a.darts@[x].init);
                }
            }
            assert forall|x: int| (before.used_set() + nset).contains(x) implies self.used_set().contains(x) by {
                if nset.contains(x) {
                    let i = choose|i: int| 0 <= i < ns.len() && ns[i] == x;
                    assert(news[i].0 == x);
                    lemma_last_pos(news, x, m);
                    let lp = last_pos(news, x, m);
                    assert(news[lp].0 == x);
                    assert(a.fresh_from(before, x, lp));
                    assert(self.darts@[x].init == a.darts@[x].init);
                } else {
                    lemma_last_pos(news, x, m);
                    let lp = last_pos(news, x, m);
                    if lp >= 0 {
                        assert(ns[lp] == x);
                    }
                    assert(a.dart_unchanged(before, x));
                    assert(self.darts@[x].init == a.darts@[x].init);
                }
            }
        }
        vstd::set_lib::lemma_set_disjoint_lens(before.used_set(), nset);
    }

    /// One link of `lemma_chamfer_keeps_involutive`.
    proof fn lemma_chamfer_involutive_at(&self, before: &Self, a: &Self, darts: Seq<DartIndex>, news: Seq<DartIndex>, d: int, idim: int, n: int, e: int, k: int)
        requires
            self.chamfer_setting(before, a, darts, news, d, idim, n),
            0 <= e < self.len(),
            self.is_init(e),
            0 <= k < self.ndims,
        ensures
            ({
                let f = self.alpha(e, k);
                &&& 0 <= f < self.len()
                &&& self.is_init(f)
                &&& self.alpha(f, k) == e
            }),
    {
        let w = n - idim;
        let m = news.len() as int;
        let cell = before.cell(d, idim);
        assert(darts.no_duplicates());
        assert(self.ndims == before.ndims);
        lemma_last_pos(news, e, m);
        let lp = last_pos(news, e, m);
        if lp >= 0 {
            // a new dart: layer j of the t-th dart x of the cell
            assert(lp < darts.len() * w);
            let t = lp / w;
            let j = idim + 1 + lp % w;
            assert(0 <= t < darts.len()) by (nonlinear_arith)
                requires
                    0 <= lp < darts.len() * w,
                    w > 0,
                    t == lp / w,
            {
                vstd::arithmetic::div_mod::lemma_div_pos_is_pos(lp, w);
                vstd::arithmetic::div_mod::lemma_div_by_multiple_is_strongly_ordered(lp, darts.len() * w, darts.len() as int, w);
            }
            vstd::arithmetic::div_mod::lemma_fundamental_div_mod(lp, w);
            assert(lp == t * w + (j - idim - 1)) by {
                assert(lp == w * (lp / w) + lp % w);
                vstd::arithmetic::mul::lemma_mul_is_commutative(w, t);
            }
            self.lemma_chamfer_new_dart(before, a, darts, news, d, idim, n, t, j);
            assert(news[lp].0 == e);
            let x = darts[t].0 as int;
            assert(cell.contains(x)) by {
                assert(ids(darts).contains(x));
            }
            lemma_pos_in(darts, t);
            if k > n {
                assert(self.alpha(e, k) == e);
            } else if k < idim || (j < k && k != j + 1) || (idim <= k && k < j) {
                let kk: int = if idim <= k && k < j { k + 1 } else { k };
                assert(kk != idim && kk <= n);
                let y = before.alpha(x, kk);
                assert(y != 0);
                before.lemma_cell_step(d, idim, x, kk);
                assert(cell.contains(y));
                assert(ids(darts).contains(y));
                let t2 = choose|t2: int| 0 <= t2 < darts.len() && #[trigger] darts[t2].0 == y;
                lemma_pos_in(darts, t2);
                assert(before.alpha(y, kk) == x);
                self.lemma_chamfer_new_dart(before, a, darts, news, d, idim, n, t2, j);
                assert(self.alpha(e, k) == ch_phi(darts, news, idim, n, j, y));
            } else if k == j {
                if j - 1 == idim {
                    assert(self.alpha(e, k) == x);
                    assert(ids(darts).contains(x) && k == idim + 1);
                    assert(pos_in(darts, x) == t);
                    assert(t * w + 0 == t * w);
                    assert(self.alpha(x, k) == news[t * w].0);
                    assert(before.is_init(x));
                    assert(self.darts@[x].init == a.darts@[x].init);
                    lemma_last_pos(news, x, m);
                    if last_pos(news, x, m) >= 0 {
                        assert(news[last_pos(news, x, m)].0 == x);
                    }
                    assert(a.dart_unchanged(before, x));
                } else {
                    self.lemma_chamfer_new_dart(before, a, darts, news, d, idim, n, t, j - 1);
                }
            } else {
                assert(k == j + 1 && j + 1 <= n);
                self.lemma_chamfer_new_dart(before, a, darts, news, d, idim, n, t, j + 1);
            }
        } else {
            // a dart of `before`
            assert(e < a.len());
            assert(a.dart_unchanged(before, e));
            assert(self.darts@[e].init == a.darts@[e].init);
            assert(before.is_init(e));
            if cell.contains(e) && k == idim + 1 {
                assert(ids(darts).contains(e));
                let t = choose|t: int| 0 <= t < darts.len() && #[trigger] darts[t].0 == e;
                lemma_pos_in(darts, t);
                self.lemma_chamfer_new_dart(before, a, darts, news, d, idim, n, t, idim + 1);
                assert(t * w + 0 == t * w);
            } else {
                assert(self.alpha(e, k) == a.alpha(e, k));
                let f = before.alpha(e, k);
                assert(a.alpha(e, k) == f);
                assert(0 <= f < before.len() && before.is_init(f) && before.alpha(f, k) == e);
                lemma_last_pos(news, f, m);
                if last_pos(news, f, m) >= 0 {
                    assert(news[last_pos(news, f, m)].0 == f);
                }
                assert(a.dart_unchanged(before, f));
                assert(self.darts@[f].init == a.darts@[f].init);
                if cell.contains(f) && k == idim + 1 {
                    before.lemma_cell_step(d, idim, f, k);
                    assert(before.chamferable(d, idim, n));
                    assert(before.alpha(f, k) != 0);
                }
                assert(!(ids(darts).contains(f) && k == idim + 1));
                assert(self.alpha(f, k) == a.alpha(f, k));
            }
        }
    }
}

} // verus!
