//! Extrusion: a new map of one more dimension whose darts are the products
//! of the darts of a component, of the darts of a path, and of the layers
//! between them.

use vstd::prelude::*;
use std::collections::HashMap;
use crate::index::{DartIndex, AttributeIndex};
use crate::index_allocator::IndexAllocator;
use crate::iterators::{ids, seq_range};
use crate::dart::{repeat, vec_repeat};
use super::NGMap;

verus! {

/// Index, in an extruded map with layers `0..=n` and a path of `m2` darts,
/// of the dart made from the `i`-th dart of the component, the `j`-th dart
/// of the path and layer `k`.
pub open spec fn ext_index(m2: int, n: int, i: int, j: int, k: int) -> int {
    1 + (i * m2 + j) * (n + 1) + k
}

/// The component position, path position and layer of dart `e` of an
/// extruded map: the inverse of `ext_index`.
pub open spec fn ext_coords(e: int, m2: int, n: int) -> (int, int, int) {
    let q = (e - 1) / (n + 1);
    (q / m2, q % m2, (e - 1) % (n + 1))
}

/// Position of dart `x` in `s`.
pub open spec fn pos_in(s: Seq<DartIndex>, x: int) -> int {
    choose|p: int| 0 <= p < s.len() && s[p].0 == x
}

/// `ext_index` numbers the triples in range from 1 to `m1 * m2 * (n + 1)`,
/// and `ext_coords` gives each triple back.
pub proof fn lemma_ext_index(m1: int, m2: int, n: int, i: int, j: int, k: int)
    requires
        0 <= i < m1,
        0 <= j < m2,
        0 <= k <= n,
    ensures
        1 <= ext_index(m2, n, i, j, k) <= m1 * m2 * (n + 1),
        ext_coords(ext_index(m2, n, i, j, k), m2, n) == (i, j, k),
{
    let q = i * m2 + j;
    let x = q * (n + 1) + k;
    assert(0 <= q < m1 * m2) by (nonlinear_arith)
        requires
            0 <= i < m1,
            0 <= j < m2,
            q == i * m2 + j,
    {
        assert(i * m2 + j < i * m2 + m2);
        assert(i * m2 + m2 == (i + 1) * m2);
        assert((i + 1) * m2 <= m1 * m2);
    }
    assert(0 <= x < m1 * m2 * (n + 1)) by (nonlinear_arith)
        requires
            0 <= q < m1 * m2,
            0 <= k <= n,
            x == q * (n + 1) + k,
    {
        assert(q * (n + 1) + k < q * (n + 1) + (n + 1));
        assert(q * (n + 1) + (n + 1) == (q + 1) * (n + 1));
        assert((q + 1) * (n + 1) <= (m1 * m2) * (n + 1));
    }
    vstd::arithmetic::div_mod::lemma_fundamental_div_mod_converse(x, n + 1, q, k);
    vstd::arithmetic::div_mod::lemma_fundamental_div_mod_converse(q, m2, i, j);
    assert(ext_index(m2, n, i, j, k) == x + 1);
}

/// Every dart `e` from 1 to `m1 * m2 * (n + 1)` has coordinates in range
/// that number it.
pub proof fn lemma_ext_coords(m1: int, m2: int, n: int, e: int)
    requires
        1 <= m2,
        0 <= n,
        1 <= e <= m1 * m2 * (n + 1),
    ensures
        ({
            let (i, j, k) = ext_coords(e, m2, n);
            &&& 0 <= i < m1
            &&& 0 <= j < m2
            &&& 0 <= k <= n
            &&& ext_index(m2, n, i, j, k) == e
        }),
{
    let x = e - 1;
    let q = x / (n + 1);
    let k = x % (n + 1);
    vstd::arithmetic::div_mod::lemma_fundamental_div_mod(x, n + 1);
    vstd::arithmetic::div_mod::lemma_mod_pos_bound(x, n + 1);
    vstd::arithmetic::div_mod::lemma_div_pos_is_pos(x, n + 1);
    assert(x < (n + 1) * (m1 * m2)) by (nonlinear_arith)
        requires
            x < m1 * m2 * (n + 1),
    {}
    vstd::arithmetic::div_mod::lemma_multiply_divide_lt(x, n + 1, m1 * m2);
    let i = q / m2;
    let j = q % m2;
    vstd::arithmetic::div_mod::lemma_fundamental_div_mod(q, m2);
    vstd::arithmetic::div_mod::lemma_mod_pos_bound(q, m2);
    vstd::arithmetic::div_mod::lemma_div_pos_is_pos(q, m2);
    assert(q < m2 * m1) by (nonlinear_arith)
        requires
            q < m1 * m2,
    {}
    vstd::arithmetic::div_mod::lemma_multiply_divide_lt(q, m2, m1);
    assert(q == i * m2 + j) by (nonlinear_arith)
        requires
            q == m2 * i + j,
    {}
    assert(x == q * (n + 1) + k) by (nonlinear_arith)
        requires
            x == (n + 1) * q + k,
    {}
}


/// `t` gives, at each dart of `s`, its position in `s`.
pub open spec fn is_pos_table(t: Seq<usize>, s: Seq<DartIndex>, len: int) -> bool {
    &&& t.len() == len
    &&& forall|p: int| 0 <= p < s.len() ==> #[trigger] t[s[p].0 as int] == p
}

/// In a listing without repetition, the position of the dart at `p` is `p`.
pub proof fn lemma_pos_in(s: Seq<DartIndex>, p: int)
    requires
        s.no_duplicates(),
        0 <= p < s.len(),
    ensures
        pos_in(s, s[p].0 as int) == p,
{
    let c = pos_in(s, s[p].0 as int);
    assert(0 <= c < s.len() && s[c].0 == s[p].0);
    assert(s[c] == s[p]);
}

/// The index of `ext_index` computed without overflow.
fn ext_index_exec(m2: usize, n: usize, i: usize, j: usize, k: usize, Ghost(m1): Ghost<int>) -> (r: usize)
    requires
        i < m1,
        j < m2,
        k <= n,
        m1 * m2 * (n + 1) < usize::MAX,
    ensures
        r == ext_index(m2 as int, n as int, i as int, j as int, k as int),
        1 <= r <= m1 * m2 * (n + 1),
{
    proof {
        lemma_ext_index(m1, m2 as int, n as int, i as int, j as int, k as int);
        assert(i * m2 + j <= m1 * m2) by (nonlinear_arith)
            requires
                i < m1,
                j < m2,
        {
            assert(i * m2 + j < (i + 1) * m2);
            assert((i + 1) * m2 <= m1 * m2);
        }
        assert((i * m2 + j) * (n + 1) <= m1 * m2 * (n + 1)) by (nonlinear_arith)
            requires
                i * m2 + j <= m1 * m2,
        {}
        assert(i * m2 <= i * m2 + j);
        assert(m1 * m2 <= m1 * m2 * (n + 1)) by (nonlinear_arith)
            requires
                1 <= m1,
                1 <= m2,
        {}
        assert(n + 1 <= m1 * m2 * (n + 1)) by (nonlinear_arith)
            requires
                1 <= m1,
                1 <= m2,
        {
            assert(1 <= m1 * m2);
        }
    }
    let q = i * m2 + j;
    let x = q * (n + 1);
    1 + x + k
}

impl<const N: usize, const NA: usize, const NL: usize> NGMap<N, NA, NL> {
    /// alpha(`a`) of the dart of the extrusion of the component `d1s` along
    /// the path `d2s` over layers `0..=n` made from the `i`-th dart of
    /// `d1s`, the `j`-th dart of `d2s` and layer `k`.
    pub open spec fn ext_alpha(&self, d1s: Seq<DartIndex>, d2s: Seq<DartIndex>, n: int, i: int, j: int, k: int, a: int) -> int {
        let m2 = d2s.len() as int;
        let d1 = d1s[i].0 as int;
        let d2 = d2s[j].0 as int;
        if k == 0 {
            if a == 0 {
                ext_index(m2, n, i, pos_in(d2s, self.alpha(d2, 0)), 0)
            } else if a == 1 {
                ext_index(m2, n, i, j, 1)
            } else {
                ext_index(m2, n, pos_in(d1s, self.alpha(d1, a - 1)), j, 0)
            }
        } else if k == n {
            if a < n {
                ext_index(m2, n, pos_in(d1s, self.alpha(d1, a)), j, n)
            } else if a == n {
                ext_index(m2, n, i, j, n - 1)
            } else {
                ext_index(m2, n, i, pos_in(d2s, self.alpha(d2, 1)), n)
            }
        } else {
            if a < k {
                ext_index(m2, n, pos_in(d1s, self.alpha(d1, a)), j, k)
            } else if a == k {
                ext_index(m2, n, i, j, k - 1)
            } else if a == k + 1 {
                ext_index(m2, n, i, j, k + 1)
            } else {
                ext_index(m2, n, pos_in(d1s, self.alpha(d1, a - 1)), j, k)
            }
        }
    }

    /// The component of `d1` can be extruded over `n` layers along the
    /// component of `d2`: the alpha(0..=n) links of the first and the
    /// alpha(0) and alpha(1) links of the second avoid dart 0.
    pub open spec fn extrudable(&self, d1: int, d2: int, n: int) -> bool {
        &&& forall|x: int, a: int| self.orbit_set(d1, seq_range(N as int)).contains(x) && 0 <= a <= n ==> #[trigger] self.alpha(x, a) != 0
        &&& forall|x: int| #[trigger] self.orbit_set(d2, seq_range(N as int)).contains(x) ==> self.alpha(x, 0) != 0 && self.alpha(x, 1) != 0
    }

    /// This map is the extrusion of the component listed in `d1s` along the
    /// path listed in `d2s`, over the layers `0..=n`, of `src`: a new map of
    /// one more dimension whose dart `ext_index(i, j, k)` comes from the
    /// `i`-th dart of `d1s`, the `j`-th dart of `d2s` and layer `k`.
    pub open spec fn extruded(&self, src: &Self, d1s: Seq<DartIndex>, d2s: Seq<DartIndex>, n: int) -> bool {
        let m2 = d2s.len() as int;
        let total = d1s.len() * m2 * (n + 1);
        &&& self.wf()
        &&& self.ndims == src.ndims + 1
        &&& self.len() == total + 1
        &&& self.dart_index_allocator.count == self.len()
        &&& self.dart_index_allocator.nodes@.len() == 0
        &&& self.marks@ == Map::<usize, Vec<bool>>::empty()
        &&& self.attribute_container_indices@ == Map::<usize, usize>::empty()
        &&& self.attribute_index_allocators@ == repeat(None::<IndexAllocator>, NA as nat)
        &&& self.attribute_actions@.len() == 0
        &&& forall|k: int| 0 <= k < N ==> #[trigger] self.alpha(0, k) == 0
        &&& forall|e: int| 1 <= e <= total ==> {
            &&& (#[trigger] self.darts@[e]).init
            &&& self.darts@[e].attributes@ == repeat(AttributeIndex(usize::MAX), NA as nat)
            &&& self.darts@[e].links@ == repeat(DartIndex(e as usize), NL as nat)
        }
        &&& forall|e: int, a: int| 1 <= e <= total && n + 1 < a < N ==> #[trigger] self.alpha(e, a) == (if a < self.ndims { e } else { 0 })
        &&& forall|i: int, j: int, k: int, a: int|
            0 <= i < d1s.len() && 0 <= j < m2 && 0 <= k <= n && 0 <= a <= n + 1
                ==> #[trigger] self.alpha(ext_index(m2, n, i, j, k), a) == src.ext_alpha(d1s, d2s, n, i, j, k, a)
    }


    /// Extruding the component of `d1` along the component of `d2` over
    /// `n` layers runs to its end: at least one layer, the new dimensions
    /// fit in `N`, the product of the darts stays within `usize`, and the
    /// links used avoid dart 0.
    pub open spec fn extrusion_defined(&self, d1: int, d2: int, n: int) -> bool {
        &&& 1 <= n
        &&& n + 1 < N
        &&& self.ndims < N
        &&& self.len() * self.len() * (n + 1) + 2 < usize::MAX
        &&& self.extrudable(d1, d2, n)
    }

    /// Extrudes the component of `dart1` along the path of `dart2` over
    /// `n1` layers into a new map of one more dimension (see `extruded`),
    /// returned with the listings of the two components; `None` if the
    /// darts are connected. The map itself is left as it is.
    pub fn extrude_(&mut self, dart1: &DartIndex, dart2: &DartIndex, n1: usize) -> (r: Option<(NGMap<N, NA, NL>, Vec<DartIndex>, Vec<DartIndex>)>)
        requires
            old(self).wf(),
            dart1.0 < old(self).len(),
            dart2.0 < old(self).len(),
            !(dart1.0 == dart2.0 || old(self).orbit_set(dart1.0 as int, seq_range(N as int)).contains(dart2.0 as int))
                ==> old(self).extrusion_defined(dart1.0 as int, dart2.0 as int, n1 as int),
        ensures
            *final(self) == *old(self),
            r is None <==> (dart1.0 == dart2.0 || old(self).orbit_set(dart1.0 as int, seq_range(N as int)).contains(dart2.0 as int)),
            r matches Some(t) ==> {
                &&& old(self).is_orbit(dart1.0 as int, seq_range(N as int), t.1@)
                &&& old(self).is_orbit(dart2.0 as int, seq_range(N as int), t.2@)
                &&& t.0.extruded(old(self), t.1@, t.2@, n1 as int)
            },
    {
        if self.darts_connected(dart1, dart2) {
            return None;
        }
        let n = n1;
        let darts1 = self.iter_darts_in_component(*dart1).items;
        let darts2 = self.iter_darts_in_component(*dart2).items;
        let m1 = darts1.len();
        let m2 = darts2.len();
        let ghost s1 = darts1@;
        let ghost s2 = darts2@;
        let ghost len = self.len();
        proof {
            crate::iterators::lemma_distinct_bound(s1, Seq::<DartIndex>::empty(), len);
            crate::iterators::lemma_distinct_bound(s2, Seq::<DartIndex>::empty(), len);
            assert(m1 * m2 * (n + 1) <= len * len * (n + 1)) by (nonlinear_arith)
                requires
                    m1 <= len,
                    m2 <= len,
                    0 <= m1,
                    0 <= m2,
            {
                assert(m1 * m2 <= len * m2);
                assert(len * m2 <= len * len);
            }
            assert(m1 * m2 <= m1 * m2 * (n + 1)) by (nonlinear_arith)
                requires
                    0 <= m1,
                    0 <= m2,
                    0 <= n,
            {}
            self.lemma_orbit_ids(dart1.0 as int, seq_range(N as int), s1);
            self.lemma_orbit_ids(dart2.0 as int, seq_range(N as int), s2);
            assert forall|p: int, b: int| 0 <= p < s1.len() && 0 <= b <= n implies ids(s1).contains(#[trigger] self.alpha(s1[p].0 as int, b)) by {
                assert(ids(s1).contains(s1[p].0 as int));
                assert(seq_range(N as int)[b] == b);
            }
            assert forall|p: int| 0 <= p < s2.len() implies ids(s2).contains(#[trigger] self.alpha(s2[p].0 as int, 0)) by {
                assert(ids(s2).contains(s2[p].0 as int));
                assert(seq_range(N as int)[0] == 0);
            }
            assert forall|p: int| 0 <= p < s2.len() implies ids(s2).contains(#[trigger] self.alpha(s2[p].0 as int, 1)) by {
                assert(ids(s2).contains(s2[p].0 as int));
                assert(seq_range(N as int)[1] == 1);
            }
        }
        let total = m1 * m2 * (n + 1);
        let nd = self.ndims + 1;
        let mut rec = NGMap::<N, NA, NL>::new(nd);
        let mut t: usize = 0;
        while t < total
            invariant
                rec.wf(),
                rec.ndims == nd,
                nd <= N,
                t <= total,
                total + 2 < usize::MAX,
                rec.len() == 1 + t,
                rec.dart_index_allocator.count == rec.len(),
                rec.dart_index_allocator.nodes@.len() == 0,
                rec.marks@ == Map::<usize, Vec<bool>>::empty(),
                rec.attribute_container_indices@ == Map::<usize, usize>::empty(),
                rec.attribute_index_allocators@ == repeat(None::<IndexAllocator>, NA as nat),
                rec.attribute_actions@.len() == 0,
                forall|k: int| 0 <= k < N ==> #[trigger] rec.alpha(0, k) == 0,
                forall|e: int| 1 <= e <= t ==> {
                    &&& (#[trigger] rec.darts@[e]).init
                    &&& rec.darts@[e].attributes@ == repeat(AttributeIndex(usize::MAX), NA as nat)
                    &&& rec.darts@[e].links@ == repeat(DartIndex(e as usize), NL as nat)
                },
                forall|e: int, a: int| 1 <= e <= t && 0 <= a < N ==> #[trigger] rec.alpha(e, a) == (if a < nd { e } else { 0 }),
            decreases total - t,
        {
            let ghost pre = rec;
            proof {
                assert(rec.attribute_room(N as int)) by {
                    assert forall|s: int| 0 <= s < NA implies !(#[trigger] rec.attribute_index_allocators@[s] is Some) by {}
                }
            }
            let d = rec.create_dart();
            proof {
                assert(d.0 == pre.len());
                assert(rec.attribute_index_allocators@ =~= repeat(None::<IndexAllocator>, NA as nat)) by {
                    assert forall|s: int| 0 <= s < NA implies #[trigger] rec.attribute_index_allocators@[s] == None::<IndexAllocator> by {
                        assert(!pre.slot_live(s));
                    }
                }
                assert forall|e: int| 1 <= e <= t + 1 implies {
                    &&& (#[trigger] rec.darts@[e]).init
                    &&& rec.darts@[e].attributes@ == repeat(AttributeIndex(usize::MAX), NA as nat)
                    &&& rec.darts@[e].links@ == repeat(DartIndex(e as usize), NL as nat)
                } by {
                    if e == d.0 {
                        assert forall|s: int| 0 <= s < NA implies #[trigger] rec.darts@[e].attributes@[s] == AttributeIndex(usize::MAX) by {
                            assert(rec.attr(e, s) == AttributeIndex(usize::MAX));
                        }
                        assert(rec.darts@[e].attributes@ =~= repeat(AttributeIndex(usize::MAX), NA as nat));
                    } else {
                        assert(rec.darts@[e] == pre.darts@[e]);
                    }
                }
                assert forall|e: int, a: int| 1 <= e <= t + 1 && 0 <= a < N implies #[trigger] rec.alpha(e, a) == (if a < nd { e } else { 0 }) by {
                    if e != d.0 {
                        assert(rec.darts@[e] == pre.darts@[e]);
                        assert(pre.alpha(e, a) == (if a < nd { e } else { 0 }));
                    }
                }
                assert forall|k: int| 0 <= k < N implies #[trigger] rec.alpha(0, k) == 0 by {
                    assert(rec.darts@[0] == pre.darts@[0]);
                    assert(pre.alpha(0, k) == 0);
                }
            }
            t = t + 1;
        }
        let pos1 = self.pos_table(&darts1);
        let pos2 = self.pos_table(&darts2);
        let ghost rec1 = rec;
        let mut e: usize = 1;
        while e <= total
            invariant
                self.wf(),
                *self == *old(self),
                rec.wf(),
                rec1.wf(),
                rec.len() == rec1.len(),
                rec.len() == total + 1,
                rec.same_books(&rec1),
                rec1.ndims == nd,
                nd <= N,
                1 <= e <= total + 1,
                1 <= n,
                n + 1 < N,
                m1 == s1.len(),
                m2 == s2.len(),
                total == m1 * m2 * (n + 1),
                total + 2 < usize::MAX,
                darts1@ == s1,
                darts2@ == s2,
                s1.no_duplicates(),
                s2.no_duplicates(),
                forall|p: int| 0 <= p < s1.len() ==> (#[trigger] s1[p]).0 < self.len(),
                forall|p: int| 0 <= p < s2.len() ==> (#[trigger] s2[p]).0 < self.len(),
                is_pos_table(pos1@, s1, self.len()),
                is_pos_table(pos2@, s2, self.len()),
                forall|p: int, b: int| 0 <= p < s1.len() && 0 <= b <= n ==> ids(s1).contains(#[trigger] self.alpha(s1[p].0 as int, b)),
                forall|p: int| 0 <= p < s2.len() ==> ids(s2).contains(#[trigger] self.alpha(s2[p].0 as int, 0)),
                forall|p: int| 0 <= p < s2.len() ==> ids(s2).contains(#[trigger] self.alpha(s2[p].0 as int, 1)),
                forall|x: int| 0 <= x < rec.len() ==> {
                    &&& (#[trigger] rec.darts@[x]).init == rec1.darts@[x].init
                    &&& rec.darts@[x].attributes@ == rec1.darts@[x].attributes@
                    &&& rec.darts@[x].links@ == rec1.darts@[x].links@
                },
                forall|x: int, a: int| 0 <= x < rec.len() && 0 <= a < N ==> #[trigger] rec.alpha(x, a) == (
                    if 1 <= x < e && a <= n + 1 {
                        let c = ext_coords(x, m2 as int, n as int);
                        self.ext_alpha(s1, s2, n as int, c.0, c.1, c.2, a)
                    } else {
                        rec1.alpha(x, a)
                    }),
            decreases total + 1 - e,
        {
            let q = (e - 1) / (n + 1);
            let k = (e - 1) % (n + 1);
            proof {
                assert(m2 >= 1) by {
                    if m2 == 0 {
                        assert(total == 0) by (nonlinear_arith)
                            requires
                                m2 == 0,
                                total == m1 * m2 * (n + 1),
                        {}
                    }
                }
                lemma_ext_coords(m1 as int, m2 as int, n as int, e as int);
            }
            let i = q / m2;
            let j = q % m2;
            let mut a: usize = 0;
            while a <= n + 1
                invariant
                    self.wf(),
                    rec.wf(),
                    rec1.wf(),
                    rec.len() == rec1.len(),
                    rec.len() == total + 1,
                    rec.same_books(&rec1),
                    1 <= e <= total,
                    (i as int, j as int, k as int) == ext_coords(e as int, m2 as int, n as int),
                    i < m1,
                    j < m2,
                    k <= n,
                    a <= n + 2,
                    1 <= n,
                    n + 1 < N,
                    m1 == s1.len(),
                    m2 == s2.len(),
                    total == m1 * m2 * (n + 1),
                    total + 2 < usize::MAX,
                    darts1@ == s1,
                    darts2@ == s2,
                    s1.no_duplicates(),
                    s2.no_duplicates(),
                    forall|p: int| 0 <= p < s1.len() ==> (#[trigger] s1[p]).0 < self.len(),
                    forall|p: int| 0 <= p < s2.len() ==> (#[trigger] s2[p]).0 < self.len(),
                    is_pos_table(pos1@, s1, self.len()),
                    is_pos_table(pos2@, s2, self.len()),
                    forall|p: int, b: int| 0 <= p < s1.len() && 0 <= b <= n ==> ids(s1).contains(#[trigger] self.alpha(s1[p].0 as int, b)),
                    forall|p: int| 0 <= p < s2.len() ==> ids(s2).contains(#[trigger] self.alpha(s2[p].0 as int, 0)),
                    forall|p: int| 0 <= p < s2.len() ==> ids(s2).contains(#[trigger] self.alpha(s2[p].0 as int, 1)),
                    forall|x: int| 0 <= x < rec.len() ==> {
                        &&& (#[trigger] rec.darts@[x]).init == rec1.darts@[x].init
                        &&& rec.darts@[x].attributes@ == rec1.darts@[x].attributes@
                        &&& rec.darts@[x].links@ == rec1.darts@[x].links@
                    },
                    forall|x: int, b: int| 0 <= x < rec.len() && 0 <= b < N ==> #[trigger] rec.alpha(x, b) == (
                        if (1 <= x < e && b <= n + 1) || (x == e && b < a) {
                            let c = ext_coords(x, m2 as int, n as int);
                            self.ext_alpha(s1, s2, n as int, c.0, c.1, c.2, b)
                        } else {
                            rec1.alpha(x, b)
                        }),
                decreases n + 2 - a,
            {
                let v = self.ext_target(&darts1, &darts2, &pos1, &pos2, n, i, j, k, a);
                let ghost before = rec;
                rec.set_dart_alpha(e, a, DartIndex(v));
                proof {
                    assert forall|x: int| 0 <= x < rec.len() implies {
                        &&& (#[trigger] rec.darts@[x]).init == rec1.darts@[x].init
                        &&& rec.darts@[x].attributes@ == rec1.darts@[x].attributes@
                        &&& rec.darts@[x].links@ == rec1.darts@[x].links@
                    } by {
                        assert(before.darts@[x].init == rec1.darts@[x].init);
                        assert(rec.darts@[x].init == before.darts@[x].init);
                    }
                    assert forall|x: int, b: int| 0 <= x < rec.len() && 0 <= b < N implies #[trigger] rec.alpha(x, b) == (
                        if (1 <= x < e && b <= n + 1) || (x == e && b < a + 1) {
                            let c = ext_coords(x, m2 as int, n as int);
                            self.ext_alpha(s1, s2, n as int, c.0, c.1, c.2, b)
                        } else {
                            rec1.alpha(x, b)
                        }) by {
                        assert(rec.alpha(x, b) == (if x == e && b == a { v as int } else { before.alpha(x, b) }));
                    }
                }
                a = a + 1;
            }
            e = e + 1;
        }
        proof {
            let m2i = m2 as int;
            let ni = n as int;
            assert forall|i: int, j: int, k: int, a: int|
                0 <= i < s1.len() && 0 <= j < m2i && 0 <= k <= ni && 0 <= a <= ni + 1
                implies #[trigger] rec.alpha(ext_index(m2i, ni, i, j, k), a) == self.ext_alpha(s1, s2, ni, i, j, k, a) by {
                lemma_ext_index(m1 as int, m2i, ni, i, j, k);
            }
            assert forall|x: int, a: int| 1 <= x <= total && n + 1 < a < N implies #[trigger] rec.alpha(x, a) == (if a < rec.ndims { x } else { 0 }) by {
                assert(rec1.alpha(x, a) == (if a < nd { x } else { 0 }));
            }
            assert forall|k: int| 0 <= k < N implies #[trigger] rec.alpha(0, k) == 0 by {
                assert(rec1.alpha(0, k) == 0);
            }
            assert forall|x: int| 1 <= x <= total implies {
                &&& (#[trigger] rec.darts@[x]).init
                &&& rec.darts@[x].attributes@ == repeat(AttributeIndex(usize::MAX), NA as nat)
                &&& rec.darts@[x].links@ == repeat(DartIndex(x as usize), NL as nat)
            } by {
                assert(rec1.darts@[x].init);
            }
        }
        Some((rec, darts1, darts2))
    }

    /// This map is an extrusion of the component of `d1` along the
    /// component of `d2` of `src` over `n` layers, for some listing of
    /// each component.
    pub open spec fn extrusion_of(&self, src: &Self, d1: int, d2: int, n: int) -> bool {
        exists|d1s: Seq<DartIndex>, d2s: Seq<DartIndex>| {
            &&& src.is_orbit(d1, seq_range(N as int), d1s)
            &&& src.is_orbit(d2, seq_range(N as int), d2s)
            &&& #[trigger] self.extruded(src, d1s, d2s, n)
        }
    }

    /// Extrudes the component of `dart1` along the path of `dart2` over
    /// `n1` layers into a new map of one more dimension (see `extruded`);
    /// `None` if the darts are connected.
    pub fn extrude(&mut self, dart1: &DartIndex, dart2: &DartIndex, n1: usize) -> (r: Option<NGMap<N, NA, NL>>)
        requires
            old(self).wf(),
            dart1.0 < old(self).len(),
            dart2.0 < old(self).len(),
            !(dart1.0 == dart2.0 || old(self).orbit_set(dart1.0 as int, seq_range(N as int)).contains(dart2.0 as int))
                ==> old(self).extrusion_defined(dart1.0 as int, dart2.0 as int, n1 as int),
        ensures
            *final(self) == *old(self),
            r is None <==> (dart1.0 == dart2.0 || old(self).orbit_set(dart1.0 as int, seq_range(N as int)).contains(dart2.0 as int)),
            r matches Some(m) ==> m.extrusion_of(old(self), dart1.0 as int, dart2.0 as int, n1 as int),
    {
        let res = self.extrude_(dart1, dart2, n1);
        match res {
            Some(t) => {
                let (m, d1s, d2s) = t;
                proof {
                    assert(m.extruded(old(self), d1s@, d2s@, n1 as int));
                }
                Some(m)
            },
            None => None,
        }
    }

    /// Positions of the darts of `s`, indexed by dart.
    pub(crate) fn pos_table(&self, s: &Vec<DartIndex>) -> (t: Vec<usize>)
        requires
            self.wf(),
            s@.no_duplicates(),
            forall|p: int| 0 <= p < s@.len() ==> (#[trigger] s@[p]).0 < self.len(),
        ensures
            is_pos_table(t@, s@, self.len()),
    {
        let mut t: Vec<usize> = vec_repeat(0, self.darts.len());
        let mut i: usize = 0;
        while i < s.len()
            invariant
                i <= s@.len(),
                t@.len() == self.len(),
                s@.no_duplicates(),
                forall|p: int| 0 <= p < s@.len() ==> (#[trigger] s@[p]).0 < self.len(),
                forall|p: int| 0 <= p < i ==> #[trigger] t@[s@[p].0 as int] == p,
            decreases s@.len() - i,
        {
            let d = s[i];
            t.set(d.0, i);
            proof {
                assert forall|p: int| 0 <= p < i + 1 implies #[trigger] t@[s@[p].0 as int] == p by {
                    if p < i {
                        assert(s@[p] != s@[i as int]);
                    }
                }
            }
            i = i + 1;
        }
        t
    }

    /// The index computed by `ext_alpha`.
    fn ext_target(&self, d1s: &Vec<DartIndex>, d2s: &Vec<DartIndex>, pos1: &Vec<usize>, pos2: &Vec<usize>,
        n: usize, i: usize, j: usize, k: usize, a: usize) -> (r: usize)
        requires
            self.wf(),
            1 <= n,
            n + 1 < N,
            i < d1s@.len(),
            j < d2s@.len(),
            k <= n,
            a <= n + 1,
            d1s@.no_duplicates(),
            d2s@.no_duplicates(),
            forall|p: int| 0 <= p < d1s@.len() ==> (#[trigger] d1s@[p]).0 < self.len(),
            forall|p: int| 0 <= p < d2s@.len() ==> (#[trigger] d2s@[p]).0 < self.len(),
            is_pos_table(pos1@, d1s@, self.len()),
            is_pos_table(pos2@, d2s@, self.len()),
            forall|p: int, b: int| 0 <= p < d1s@.len() && 0 <= b <= n ==> ids(d1s@).contains(#[trigger] self.alpha(d1s@[p].0 as int, b)),
            forall|p: int| 0 <= p < d2s@.len() ==> ids(d2s@).contains(#[trigger] self.alpha(d2s@[p].0 as int, 0)),
            forall|p: int| 0 <= p < d2s@.len() ==> ids(d2s@).contains(#[trigger] self.alpha(d2s@[p].0 as int, 1)),
            d1s@.len() * d2s@.len() * (n + 1) + 2 < usize::MAX,
        ensures
            r == self.ext_alpha(d1s@, d2s@, n as int, i as int, j as int, k as int, a as int),
            1 <= r <= d1s@.len() * d2s@.len() * (n + 1),
    {
        let m2 = d2s.len();
        let ghost m1 = d1s@.len() as int;
        let d1 = d1s[i];
        let d2 = d2s[j];
        let ghost s1 = d1s@;
        let ghost s2 = d2s@;
        if k == 0 {
            if a == 0 {
                let x = self.get_alpha(&d2, 0);
                proof {
                    let q = choose|q: int| 0 <= q < s2.len() && #[trigger] s2[q].0 == x.0;
                    lemma_pos_in(s2, q);
                }
                ext_index_exec(m2, n, i, pos2[x.0], 0, Ghost(m1))
            } else if a == 1 {
                ext_index_exec(m2, n, i, j, 1, Ghost(m1))
            } else {
                let x = self.get_alpha(&d1, a - 1);
                proof {
                    let q = choose|q: int| 0 <= q < s1.len() && #[trigger] s1[q].0 == x.0;
                    lemma_pos_in(s1, q);
                }
                ext_index_exec(m2, n, pos1[x.0], j, 0, Ghost(m1))
            }
        } else if k == n {
            if a < n {
                let x = self.get_alpha(&d1, a);
                proof {
                    let q = choose|q: int| 0 <= q < s1.len() && #[trigger] s1[q].0 == x.0;
                    lemma_pos_in(s1, q);
                }
                ext_index_exec(m2, n, pos1[x.0], j, n, Ghost(m1))
            } else if a == n {
                ext_index_exec(m2, n, i, j, n - 1, Ghost(m1))
            } else {
                let x = self.get_alpha(&d2, 1);
                proof {
                    let q = choose|q: int| 0 <= q < s2.len() && #[trigger] s2[q].0 == x.0;
                    lemma_pos_in(s2, q);
                }
                ext_index_exec(m2, n, i, pos2[x.0], n, Ghost(m1))
            }
        } else {
            if a < k {
                let x = self.get_alpha(&d1, a);
                proof {
                    let q = choose|q: int| 0 <= q < s1.len() && #[trigger] s1[q].0 == x.0;
                    lemma_pos_in(s1, q);
                }
                ext_index_exec(m2, n, pos1[x.0], j, k, Ghost(m1))
            } else if a == k {
                ext_index_exec(m2, n, i, j, k - 1, Ghost(m1))
            } else if a == k + 1 {
                ext_index_exec(m2, n, i, j, k + 1, Ghost(m1))
            } else {
                let x = self.get_alpha(&d1, a - 1);
                proof {
                    let q = choose|q: int| 0 <= q < s1.len() && #[trigger] s1[q].0 == x.0;
                    lemma_pos_in(s1, q);
                }
                ext_index_exec(m2, n, pos1[x.0], j, k, Ghost(m1))
            }
        }
    }
}

} // verus!
