//! What extrusion builds. The extruded map is the product of a component,
//! a path and a ladder of layers: the dart made from component dart `x`,
//! path dart `y` and layer `k` is linked along alpha(0) in the bottom
//! layer to the dart made from `alpha0(y)`, along alpha(n + 1) in the top
//! layer to the dart made from `alpha1(y)`, to the layers below and above
//! along the two links that separate them, and otherwise as `x` is linked
//! in the component. From involutive links it makes involutive links.

use vstd::prelude::*;
use crate::index::DartIndex;
use crate::iterators::{ids, seq_range};
use super::NGMap;
use super::extrude::{ext_index, ext_coords, pos_in, lemma_ext_index, lemma_ext_coords, lemma_pos_in};

verus! {

impl<const N: usize, const NA: usize, const NL: usize> NGMap<N, NA, NL> {
    /// The darts of an extrusion are numbered in the order they are made:
    /// for each dart of the component, for each dart of the path, the
    /// layers from bottom to top, starting at 1.
    pub proof fn lemma_extrusion_numbering(m1: int, m2: int, n: int)
        requires
            1 <= m1,
            1 <= m2,
            0 <= n,
        ensures
            ext_index(m2, n, 0, 0, 0) == 1,
            ext_index(m2, n, m1 - 1, m2 - 1, n) == m1 * m2 * (n + 1),
            forall|i: int, j: int, k: int| 0 <= k < n ==> #[trigger] ext_index(m2, n, i, j, k + 1) == ext_index(m2, n, i, j, k) + 1,
            forall|i: int, j: int| 0 <= j < m2 - 1 ==> #[trigger] ext_index(m2, n, i, j + 1, 0) == ext_index(m2, n, i, j, n) + 1,
            forall|i: int| 0 <= i < m1 - 1 ==> #[trigger] ext_index(m2, n, i + 1, 0, 0) == ext_index(m2, n, i, m2 - 1, n) + 1,
    {
        assert(ext_index(m2, n, 0, 0, 0) == 1) by (nonlinear_arith);
        assert(ext_index(m2, n, m1 - 1, m2 - 1, n) == m1 * m2 * (n + 1)) by (nonlinear_arith)
            requires
                1 <= m1,
                1 <= m2,
        {
            assert(((m1 - 1) * m2 + (m2 - 1)) * (n + 1) + n + 1 == (m1 * m2) * (n + 1));
        }
        assert forall|i: int, j: int| 0 <= j < m2 - 1 implies #[trigger] ext_index(m2, n, i, j + 1, 0) == ext_index(m2, n, i, j, n) + 1 by {
            assert((i * m2 + j + 1) * (n + 1) == (i * m2 + j) * (n + 1) + (n + 1)) by (nonlinear_arith);
        }
        assert forall|i: int| 0 <= i < m1 - 1 implies #[trigger] ext_index(m2, n, i + 1, 0, 0) == ext_index(m2, n, i, m2 - 1, n) + 1 by {
            assert((i + 1) * m2 == i * m2 + (m2 - 1) + 1) by (nonlinear_arith);
            assert(((i * m2 + (m2 - 1)) + 1) * (n + 1) == (i * m2 + (m2 - 1)) * (n + 1) + (n + 1)) by (nonlinear_arith);
        }
    }

    /// The links of an extrusion. Let this map be the extrusion of the
    /// component listed in `d1s` along the path listed in `d2s` over the
    /// layers `0..=n` of `src` (as `extrude` states). Writing
    /// `dart(i, j, k)` for the dart made from the `i`-th dart `x` of the
    /// component, the `j`-th dart `y` of the path and layer `k`:
    /// - in the bottom layer, alpha(0) leads to the dart made from
    ///   alpha(0) of `y`;
    /// - in the top layer, alpha(n + 1) leads to the dart made from
    ///   alpha(1) of `y`;
    /// - alpha(k + 1) leads from layer `k` to layer `k + 1`, and alpha(k)
    ///   from layer `k > 0` to layer `k - 1`, with the same `x` and `y`;
    /// - a link `a` below the layer's own links follows alpha(a) of `x`,
    ///   and one above them follows alpha(a - 1) of `x`, in the same layer
    ///   and with the same `y`.
    pub proof fn lemma_extrusion_links(&self, src: &Self, d1s: Seq<DartIndex>, d2s: Seq<DartIndex>, n: int)
        requires
            self.extruded(src, d1s, d2s, n),
            1 <= n,
        ensures
            ({
                let m2 = d2s.len() as int;
                &&& forall|i: int, j: int| 0 <= i < d1s.len() && 0 <= j < m2 ==>
                    #[trigger] self.alpha(ext_index(m2, n, i, j, 0), 0) == ext_index(m2, n, i, pos_in(d2s, src.alpha(d2s[j].0 as int, 0)), 0)
                &&& forall|i: int, j: int| 0 <= i < d1s.len() && 0 <= j < m2 ==>
                    #[trigger] self.alpha(ext_index(m2, n, i, j, n), n + 1) == ext_index(m2, n, i, pos_in(d2s, src.alpha(d2s[j].0 as int, 1)), n)
                &&& forall|i: int, j: int, k: int| 0 <= i < d1s.len() && 0 <= j < m2 && 0 <= k < n ==>
                    #[trigger] self.alpha(ext_index(m2, n, i, j, k), k + 1) == ext_index(m2, n, i, j, k + 1)
                &&& forall|i: int, j: int, k: int| 0 <= i < d1s.len() && 0 <= j < m2 && 0 < k <= n ==>
                    #[trigger] self.alpha(ext_index(m2, n, i, j, k), k) == ext_index(m2, n, i, j, k - 1)
                &&& forall|i: int, j: int, k: int, a: int| 0 <= i < d1s.len() && 0 <= j < m2 && 0 <= k <= n && 0 <= a < k ==>
                    #[trigger] self.alpha(ext_index(m2, n, i, j, k), a) == ext_index(m2, n, pos_in(d1s, src.alpha(d1s[i].0 as int, a)), j, k)
                &&& forall|i: int, j: int, k: int, a: int| 0 <= i < d1s.len() && 0 <= j < m2 && 0 <= k <= n && k + 1 < a <= n + 1 ==>
                    #[trigger] self.alpha(ext_index(m2, n, i, j, k), a) == ext_index(m2, n, pos_in(d1s, src.alpha(d1s[i].0 as int, a - 1)), j, k)
            }),
    {
    }

    /// Extrusion keeps the alpha links involutions. Let this map be the
    /// extrusion of the component of `d1` (listed in `d1s`) along the
    /// component of `d2` (listed in `d2s`) over `n >= 1` layers of `src`,
    /// whose links are involutions that lead nowhere at or above its
    /// dimension, with `d1` and `d2` in use and the links the extrusion uses
    /// avoiding dart 0. Then the links of this map are involutions.
    pub proof fn lemma_extrusion_involutive(&self, src: &Self, d1: int, d2: int, d1s: Seq<DartIndex>, d2s: Seq<DartIndex>, n: int)
        requires
            src.wf(),
            src.involutive(),
            src.flat_above(),
            0 <= d1 < src.len(),
            0 <= d2 < src.len(),
            src.is_init(d1),
            src.is_init(d2),
            1 <= n,
            n + 1 < N,
            src.extrudable(d1, d2, n),
            src.is_orbit(d1, seq_range(N as int), d1s),
            src.is_orbit(d2, seq_range(N as int), d2s),
            self.extruded(src, d1s, d2s, n),
        ensures
            self.involutive(),
    {
        let m1 = d1s.len() as int;
        let m2 = d2s.len() as int;
        let total = m1 * m2 * (n + 1);
        self.lemma_extrusion_links(src, d1s, d2s, n);
        src.lemma_orbit_links(d1, n, d1s);
        src.lemma_orbit_links(d2, 1, d2s);
        assert forall|e: int, a: int| 0 <= e < self.len() && self.is_init(e) && 0 <= a < self.ndims implies {
            let f = #[trigger] self.alpha(e, a);
            &&& 0 <= f < self.len()
            &&& self.is_init(f)
            &&& self.alpha(f, a) == e
        } by {
            if e == 0 {
                assert(self.alpha(0, a) == 0);
            } else if a > n + 1 {
                assert(self.alpha(e, a) == e);
            } else {
                assert(m2 >= 1) by {
                    if m2 == 0 {
                        assert(total == 0) by (nonlinear_arith)
                            requires
                                m2 == 0,
                                total == m1 * m2 * (n + 1),
                        {}
                    }
                }
                lemma_ext_coords(m1, m2, n, e);
                let (i, j, k) = ext_coords(e, m2, n);
                self.lemma_extrusion_step_back(src, d1s, d2s, n, i, j, k, a);
            }
        }
    }

    /// The map that `extrude` returns keeps the alpha links involutions,
    /// under the conditions of `lemma_extrusion_involutive`.
    pub proof fn lemma_extrude_result_involutive(&self, src: &Self, d1: int, d2: int, n: int)
        requires
            src.wf(),
            src.involutive(),
            src.flat_above(),
            0 <= d1 < src.len(),
            0 <= d2 < src.len(),
            src.is_init(d1),
            src.is_init(d2),
            1 <= n,
            n + 1 < N,
            src.extrudable(d1, d2, n),
            self.extrusion_of(src, d1, d2, n),
        ensures
            self.involutive(),
    {
        let (d1s, d2s) = choose|d1s: Seq<DartIndex>, d2s: Seq<DartIndex>| {
            &&& src.is_orbit(d1, seq_range(N as int), d1s)
            &&& src.is_orbit(d2, seq_range(N as int), d2s)
            &&& #[trigger] self.extruded(src, d1s, d2s, n)
        };
        self.lemma_extrusion_involutive(src, d1, d2, d1s, d2s, n);
    }

    /// In the component listed in `p` (the orbit of `d` under every link),
    /// each link up to `b` of a dart of it leads to a dart of it whose same
    /// link leads back.
    pub proof fn lemma_orbit_links(&self, d: int, b: int, p: Seq<DartIndex>)
        requires
            self.wf(),
            self.involutive(),
            self.flat_above(),
            0 <= d < self.len(),
            self.is_init(d),
            0 <= b < N,
            self.is_orbit(d, seq_range(N as int), p),
            forall|x: int, a: int| self.orbit_set(d, seq_range(N as int)).contains(x) && 0 <= a <= b ==> #[trigger] self.alpha(x, a) != 0,
        ensures
            p.no_duplicates(),
            forall|q: int, a: int| 0 <= q < p.len() && 0 <= a <= b ==> {
                let y = #[trigger] self.alpha(p[q].0 as int, a);
                let r = pos_in(p, y);
                &&& 0 <= r < p.len()
                &&& p[r].0 == y
                &&& pos_in(p, self.alpha(y, a)) == q
            },
    {
        let iseq = seq_range(N as int);
        assert forall|j: int| 0 <= j < iseq.len() implies #[trigger] iseq[j] < N by {}
        self.lemma_orbit_darts_in_use(d, iseq);
        self.lemma_orbit_ids(d, iseq, p);
        assert forall|q: int, a: int| 0 <= q < p.len() && 0 <= a <= b implies {
            let y = #[trigger] self.alpha(p[q].0 as int, a);
            let r = pos_in(p, y);
            &&& 0 <= r < p.len()
            &&& p[r].0 == y
            &&& pos_in(p, self.alpha(y, a)) == q
        } by {
            let x = p[q].0 as int;
            assert(ids(p).contains(x));
            assert(iseq[a] == a);
            let y = self.alpha(x, a);
            assert(y != 0);
            assert(y == x || ids(p).contains(y));
            let r0 = choose|r0: int| 0 <= r0 < p.len() && (#[trigger] p[r0]).0 == y;
            lemma_pos_in(p, r0);
            assert(0 <= x < self.len() && self.is_init(x));
            if a < self.ndims {
                assert(self.alpha(y, a) == x);
            } else {
                assert(y == x);
            }
            lemma_pos_in(p, q);
        }
    }

    /// One link of `lemma_extrusion_involutive`, for the dart made from
    /// `(i, j, k)`.
    proof fn lemma_extrusion_step_back(&self, src: &Self, d1s: Seq<DartIndex>, d2s: Seq<DartIndex>, n: int, i: int, j: int, k: int, a: int)
        requires
            self.extruded(src, d1s, d2s, n),
            1 <= n,
            0 <= i < d1s.len(),
            0 <= j < d2s.len(),
            0 <= k <= n,
            0 <= a <= n + 1,
            forall|q: int, b: int| 0 <= q < d1s.len() && 0 <= b <= n ==> {
                let y = #[trigger] src.alpha(d1s[q].0 as int, b);
                let r = pos_in(d1s, y);
                &&& 0 <= r < d1s.len()
                &&& d1s[r].0 == y
                &&& pos_in(d1s, src.alpha(y, b)) == q
            },
            forall|q: int, b: int| 0 <= q < d2s.len() && 0 <= b <= 1 ==> {
                let y = #[trigger] src.alpha(d2s[q].0 as int, b);
                let r = pos_in(d2s, y);
                &&& 0 <= r < d2s.len()
                &&& d2s[r].0 == y
                &&& pos_in(d2s, src.alpha(y, b)) == q
            },
        ensures
            ({
                let m2 = d2s.len() as int;
                let e = ext_index(m2, n, i, j, k);
                let f = self.alpha(e, a);
                &&& 1 <= f < self.len()
                &&& self.is_init(f)
                &&& self.alpha(f, a) == e
            }),
    {
        let m1 = d1s.len() as int;
        let m2 = d2s.len() as int;
        self.lemma_extrusion_links(src, d1s, d2s, n);
        let x = d1s[i].0 as int;
        let y = d2s[j].0 as int;
        // the coordinates of the target
        let (i2, j2, k2) = if k == 0 && a == 0 {
            (i, pos_in(d2s, src.alpha(y, 0)), k)
        } else if k == n && a == n + 1 {
            (i, pos_in(d2s, src.alpha(y, 1)), k)
        } else if a == k + 1 {
            (i, j, k + 1)
        } else if a == k {
            (i, j, k - 1)
        } else if a < k {
            (pos_in(d1s, src.alpha(x, a)), j, k)
        } else {
            (pos_in(d1s, src.alpha(x, a - 1)), j, k)
        };
        assert(0 <= i2 < m1 && 0 <= j2 < m2 && 0 <= k2 <= n);
        lemma_ext_index(m1, m2, n, i2, j2, k2);
        lemma_ext_index(m1, m2, n, i, j, k);
        assert(self.alpha(ext_index(m2, n, i, j, k), a) == ext_index(m2, n, i2, j2, k2));
        assert(self.alpha(ext_index(m2, n, i2, j2, k2), a) == ext_index(m2, n, i, j, k));
    }
}

} // verus!
