//! Isomorphic orbits: a one-to-one correspondence between the darts of two
//! orbits that sends a given dart of the first to a given dart of the
//! second and commutes with every link of the orbits. Sewing needs one.

use vstd::prelude::*;
use crate::index::DartIndex;
use crate::iterators::ids;
use crate::dart::{vec_repeat, repeat};
use super::NGMap;

verus! {

impl<const N: usize, const NA: usize, const NL: usize> NGMap<N, NA, NL> {
    /// Link `k` of `x` and link `k` of `y` agree under `f`: either both
    /// lead to dart 0, or neither does and `f` sends the target of the first
    /// to the target of the second.
    pub open spec fn link_agrees(&self, x: int, y: int, k: int, f: Map<int, int>) -> bool {
        let a = self.alpha(x, k);
        let b = self.alpha(y, k);
        &&& (a == 0) == (b == 0)
        &&& a != 0 ==> f.contains_key(a) && f[a] == b
    }

    /// `f` is an isomorphism from the orbit of `d1` onto the orbit of `d2`
    /// under the links in `iseq`: one to one, onto, sending `d1` to `d2`,
    /// and commuting with every link in `iseq`.
    pub open spec fn orbit_iso(&self, d1: int, d2: int, iseq: Seq<usize>, f: Map<int, int>) -> bool {
        &&& f.dom() == self.orbit_set(d1, iseq)
        &&& f[d1] == d2
        &&& forall|x: int, y: int| #![trigger f[x], f[y]] f.contains_key(x) && f.contains_key(y) && x != y ==> f[x] != f[y]
        &&& forall|y: int| #[trigger] self.orbit_set(d2, iseq).contains(y) <==> exists|x: int| f.contains_key(x) && #[trigger] f[x] == y
        &&& forall|x: int, j: int| #![trigger f[x], iseq[j]] f.contains_key(x) && 0 <= j < iseq.len() ==> self.link_agrees(x, f[x], iseq[j] as int, f)
    }

    /// Link `k` of `x` and of `y` agree under the partial correspondence
    /// `img` (defined where `seen` holds).
    pub open spec fn link_matched(&self, x: int, y: int, k: int, seen: Seq<bool>, img: Seq<usize>) -> bool {
        let a = self.alpha(x, k);
        let b = self.alpha(y, k);
        &&& (a == 0) == (b == 0)
        &&& a != 0 ==> seen[a] && img[a] == b
    }

    /// An orbit holds its dart and is closed under its links.
    pub proof fn lemma_orbit_set_closed(&self, d: int, iseq: Seq<usize>)
        ensures
            self.orbit_set(d, iseq).contains(d),
            self.closed_under(self.orbit_set(d, iseq), iseq),
    {
        let o = self.orbit_set(d, iseq);
        assert forall|x: int, j: int| o.contains(x) && 0 <= j < iseq.len() implies {
            let y = #[trigger] self.alpha(x, iseq[j] as int);
            y == x || y == 0 || o.contains(y)
        } by {
            let y = self.alpha(x, iseq[j] as int);
            if y != x && y != 0 {
                assert forall|s: Set<int>| #[trigger] self.closed_under(s, iseq) && s.contains(d) implies s.contains(y) by {
                    assert(s.contains(x));
                }
            }
        }
    }

    /// Looks for an isomorphism from the orbit of `dart1` onto the orbit of
    /// `dart2` under the links in `seq`, walking both orbits side by side
    /// from those darts. Returns whether there is one, with the two orbits
    /// listed so that darts at the same position correspond.
    pub fn match_orbits(&self, dart1: DartIndex, dart2: DartIndex, seq: &Vec<usize>) -> (r: (bool, Vec<DartIndex>, Vec<DartIndex>))
        requires
            self.wf(),
            dart1.0 < self.len(),
            dart2.0 < self.len(),
            forall|j: int| 0 <= j < seq@.len() ==> #[trigger] seq@[j] < N,
        ensures
            r.0 == exists|f: Map<int, int>| self.orbit_iso(dart1.0 as int, dart2.0 as int, seq@, f),
            r.0 ==> {
                &&& self.is_orbit(dart1.0 as int, seq@, r.1@)
                &&& self.is_orbit(dart2.0 as int, seq@, r.2@)
                &&& r.1@.len() == r.2@.len()
                &&& forall|f: Map<int, int>, k: int| #[trigger] self.orbit_iso(dart1.0 as int, dart2.0 as int, seq@, f) && 0 <= k < r.1@.len()
                    ==> f[(#[trigger] r.1@[k]).0 as int] == r.2@[k].0
            },
    {
        let len = self.darts.len();
        let ghost d1 = dart1.0 as int;
        let ghost d2 = dart2.0 as int;
        let ghost o1 = self.orbit_set(d1, seq@);
        let ghost o2 = self.orbit_set(d2, seq@);
        proof {
            self.lemma_orbit_set_closed(d1, seq@);
            self.lemma_orbit_set_closed(d2, seq@);
        }
        let mut seen1: Vec<bool> = vec_repeat(false, len);
        let mut seen2: Vec<bool> = vec_repeat(false, len);
        let mut img: Vec<usize> = vec_repeat(0usize, len);
        let mut pre: Vec<usize> = vec_repeat(0usize, len);
        seen1.set(dart1.0, true);
        seen2.set(dart2.0, true);
        img.set(dart1.0, dart2.0);
        pre.set(dart2.0, dart1.0);
        let mut stack1: Vec<DartIndex> = Vec::new();
        let mut stack2: Vec<DartIndex> = Vec::new();
        stack1.push(dart1);
        stack2.push(dart2);
        let mut res1: Vec<DartIndex> = Vec::new();
        let mut res2: Vec<DartIndex> = Vec::new();
        assert(stack1@[0] == dart1);
        assert(stack2@[0] == dart2);
        assert(ids(stack1@) =~= set![d1]);
        assert(ids(stack2@) =~= set![d2]);
        while stack1.len() > 0
            invariant
                self.wf(),
                len == self.len(),
                d1 == dart1.0,
                d2 == dart2.0,
                d1 < len,
                d2 < len,
                o1 == self.orbit_set(d1, seq@),
                o2 == self.orbit_set(d2, seq@),
                o1.contains(d1),
                o2.contains(d2),
                self.closed_under(o1, seq@),
                self.closed_under(o2, seq@),
                forall|j: int| 0 <= j < seq@.len() ==> #[trigger] seq@[j] < N,
                seen1@.len() == len,
                seen2@.len() == len,
                img@.len() == len,
                pre@.len() == len,
                seen1@[d1],
                img@[d1] == d2,
                forall|x: int| 0 <= x < len && #[trigger] seen1@[x] ==> img@[x] < len && seen2@[img@[x] as int] && pre@[img@[x] as int] == x && o1.contains(x),
                forall|y: int| 0 <= y < len && #[trigger] seen2@[y] ==> pre@[y] < len && seen1@[pre@[y] as int] && img@[pre@[y] as int] == y && o2.contains(y),
                forall|x: int| 0 <= x < len ==> (#[trigger] seen1@[x] <==> (ids(res1@).contains(x) || ids(stack1@).contains(x))),
                forall|y: int| 0 <= y < len ==> (#[trigger] seen2@[y] <==> (ids(res2@).contains(y) || ids(stack2@).contains(y))),
                res1@.no_duplicates(),
                stack1@.no_duplicates(),
                forall|i: int, j: int| 0 <= i < res1@.len() && 0 <= j < stack1@.len() ==> res1@[i] != stack1@[j],
                res1@.len() == res2@.len(),
                stack1@.len() == stack2@.len(),
                forall|i: int| 0 <= i < res1@.len() ==> (#[trigger] res1@[i]).0 < len && (res1@[i].0 != 0 || res1@[i].0 == d1)
                    && res2@[i].0 == img@[res1@[i].0 as int] && (res2@[i].0 != 0 || res2@[i].0 == d2),
                forall|i: int| 0 <= i < stack1@.len() ==> (#[trigger] stack1@[i]).0 < len && (stack1@[i].0 != 0 || stack1@[i].0 == d1)
                    && stack2@[i].0 == img@[stack1@[i].0 as int] && (stack2@[i].0 != 0 || stack2@[i].0 == d2),
                res1@.len() >= 1 ==> res1@[0].0 == d1,
                res1@.len() == 0 ==> stack1@ == seq![dart1],
                forall|i: int, j: int| 0 <= i < res1@.len() && 0 <= j < seq@.len() ==>
                    #[trigger] self.link_matched(res1@[i].0 as int, res2@[i].0 as int, seq@[j] as int, seen1@, img@),
                forall|f: Map<int, int>, x: int| #[trigger] self.orbit_iso(d1, d2, seq@, f) && 0 <= x < len && seen1@[x] ==> #[trigger] f[x] == img@[x],
            decreases len - res1@.len() - stack1@.len(), stack1@.len(),
        {
            proof {
                crate::iterators::lemma_distinct_bound(res1@, stack1@, len as int);
            }
            let ghost r0 = res1@.len();
            let ghost s0 = stack1@.len();
            let ghost st1 = stack1@;
            let ghost st2 = stack2@;
            let x = stack1.pop().unwrap();
            let y = stack2.pop().unwrap();
            let ghost rb1 = res1@;
            let ghost rb2 = res2@;
            res1.push(x);
            res2.push(y);
            proof {
                assert(st1 == stack1@.push(x));
                assert(st2 == stack2@.push(y));
                assert(st1[st1.len() - 1] == x);
                assert(st2[st2.len() - 1] == y);
                assert(y.0 == img@[x.0 as int]);
                assert forall|z: int| #[trigger] ids(st1).contains(z) <==> (ids(stack1@).contains(z) || z == x.0) by {
                    if ids(st1).contains(z) {
                        let i = choose|i: int| 0 <= i < st1.len() && (#[trigger] st1[i]).0 == z;
                        if i < stack1@.len() {
                            assert(st1[i] == stack1@[i]);
                        }
                    }
                    if ids(stack1@).contains(z) {
                        let i = choose|i: int| 0 <= i < stack1@.len() && (#[trigger] stack1@[i]).0 == z;
                        assert(st1[i] == stack1@[i]);
                    }
                }
                assert forall|z: int| #[trigger] ids(st2).contains(z) <==> (ids(stack2@).contains(z) || z == y.0) by {
                    if ids(st2).contains(z) {
                        let i = choose|i: int| 0 <= i < st2.len() && (#[trigger] st2[i]).0 == z;
                        if i < stack2@.len() {
                            assert(st2[i] == stack2@[i]);
                        }
                    }
                    if ids(stack2@).contains(z) {
                        let i = choose|i: int| 0 <= i < stack2@.len() && (#[trigger] stack2@[i]).0 == z;
                        assert(st2[i] == stack2@[i]);
                    }
                }
                assert forall|i: int| 0 <= i < stack1@.len() implies stack1@[i] != x by {
                    assert(st1[i] == stack1@[i]);
                }
                assert forall|z: int| #[trigger] ids(res1@).contains(z) <==> (ids(rb1).contains(z) || z == x.0) by {
                    if ids(res1@).contains(z) {
                        let i = choose|i: int| 0 <= i < res1@.len() && (#[trigger] res1@[i]).0 == z;
                        if i < rb1.len() {
                            assert(rb1[i] == res1@[i]);
                        }
                    }
                    if ids(rb1).contains(z) {
                        let i = choose|i: int| 0 <= i < rb1.len() && (#[trigger] rb1[i]).0 == z;
                        assert(res1@[i] == rb1[i]);
                    }
                    if z == x.0 {
                        assert(res1@[res1@.len() - 1] == x);
                    }
                }
                assert forall|z: int| #[trigger] ids(res2@).contains(z) <==> (ids(rb2).contains(z) || z == y.0) by {
                    if ids(res2@).contains(z) {
                        let i = choose|i: int| 0 <= i < res2@.len() && (#[trigger] res2@[i]).0 == z;
                        if i < rb2.len() {
                            assert(rb2[i] == res2@[i]);
                        }
                    }
                    if ids(rb2).contains(z) {
                        let i = choose|i: int| 0 <= i < rb2.len() && (#[trigger] rb2[i]).0 == z;
                        assert(res2@[i] == rb2[i]);
                    }
                    if z == y.0 {
                        assert(res2@[res2@.len() - 1] == y);
                    }
                }
                assert(seen1@[x.0 as int]);
                assert(seen2@[y.0 as int]);
            }
            let mut j: usize = 0;
            while j < seq.len()
                invariant
                    self.wf(),
                    len == self.len(),
                    d1 == dart1.0,
                    d2 == dart2.0,
                    d1 < len,
                    d2 < len,
                    o1 == self.orbit_set(d1, seq@),
                    o2 == self.orbit_set(d2, seq@),
                    o1.contains(d1),
                    o2.contains(d2),
                    self.closed_under(o1, seq@),
                    self.closed_under(o2, seq@),
                    forall|j: int| 0 <= j < seq@.len() ==> #[trigger] seq@[j] < N,
                    seen1@.len() == len,
                    seen2@.len() == len,
                    img@.len() == len,
                    pre@.len() == len,
                    seen1@[d1],
                    img@[d1] == d2,
                    forall|x: int| 0 <= x < len && #[trigger] seen1@[x] ==> img@[x] < len && seen2@[img@[x] as int] && pre@[img@[x] as int] == x && o1.contains(x),
                    forall|y: int| 0 <= y < len && #[trigger] seen2@[y] ==> pre@[y] < len && seen1@[pre@[y] as int] && img@[pre@[y] as int] == y && o2.contains(y),
                    forall|x: int| 0 <= x < len ==> (#[trigger] seen1@[x] <==> (ids(res1@).contains(x) || ids(stack1@).contains(x))),
                    forall|y: int| 0 <= y < len ==> (#[trigger] seen2@[y] <==> (ids(res2@).contains(y) || ids(stack2@).contains(y))),
                    res1@.no_duplicates(),
                    stack1@.no_duplicates(),
                    forall|i: int, j: int| 0 <= i < res1@.len() && 0 <= j < stack1@.len() ==> res1@[i] != stack1@[j],
                    res1@.len() == res2@.len(),
                    stack1@.len() == stack2@.len(),
                    forall|i: int| 0 <= i < res1@.len() ==> (#[trigger] res1@[i]).0 < len && (res1@[i].0 != 0 || res1@[i].0 == d1)
                        && res2@[i].0 == img@[res1@[i].0 as int] && (res2@[i].0 != 0 || res2@[i].0 == d2),
                    forall|i: int| 0 <= i < stack1@.len() ==> (#[trigger] stack1@[i]).0 < len && (stack1@[i].0 != 0 || stack1@[i].0 == d1)
                        && stack2@[i].0 == img@[stack1@[i].0 as int] && (stack2@[i].0 != 0 || stack2@[i].0 == d2),
                    res1@.len() == r0 + 1,
                    stack1@.len() >= s0 - 1,
                    r0 + s0 <= len,
                    res1@[0].0 == d1,
                    res1@[res1@.len() - 1] == x,
                    res2@[res2@.len() - 1] == y,
                    x.0 < len,
                    y.0 < len,
                    forall|i: int, j: int| 0 <= i < res1@.len() - 1 && 0 <= j < seq@.len() ==>
                        #[trigger] self.link_matched(res1@[i].0 as int, res2@[i].0 as int, seq@[j] as int, seen1@, img@),
                    forall|jj: int| 0 <= jj < j ==> #[trigger] self.link_matched(x.0 as int, y.0 as int, seq@[jj] as int, seen1@, img@),
                    forall|f: Map<int, int>, x: int| #[trigger] self.orbit_iso(d1, d2, seq@, f) && 0 <= x < len && seen1@[x] ==> #[trigger] f[x] == img@[x],
                    j <= seq@.len(),
                decreases seq@.len() - j,
            {
                let k = seq[j];
                let a = self.darts[x.0].get_alpha(k);
                let b = self.darts[y.0].get_alpha(k);
                assert(a.0 == self.alpha(x.0 as int, k as int));
                assert(b.0 == self.alpha(y.0 as int, k as int));
                assert(a.0 < len && b.0 < len);
                proof {
                    assert(ids(res1@).contains(x.0 as int)) by {
                        assert(res1@[res1@.len() - 1] == x);
                    }
                    assert(seen1@[x.0 as int]);
                    assert(y.0 == img@[x.0 as int]) by {
                        assert(res1@[res1@.len() - 1] == x);
                    }
                }
                if a.0 == 0 || b.0 == 0 {
                    if a.0 != b.0 {
                        proof {
                            assert forall|f: Map<int, int>| !self.orbit_iso(d1, d2, seq@, f) by {
                                if self.orbit_iso(d1, d2, seq@, f) {
                                    assert(f[x.0 as int] == img@[x.0 as int]);
                                    assert(self.link_agrees(x.0 as int, f[x.0 as int], seq@[j as int] as int, f));
                                }
                            }
                        }
                        return (false, res1, res2);
                    }
                } else if seen1[a.0] {
                    if img[a.0] != b.0 {
                        proof {
                            assert forall|f: Map<int, int>| !self.orbit_iso(d1, d2, seq@, f) by {
                                if self.orbit_iso(d1, d2, seq@, f) {
                                    assert(f[x.0 as int] == img@[x.0 as int]);
                                    assert(self.link_agrees(x.0 as int, f[x.0 as int], seq@[j as int] as int, f));
                                    assert(f[a.0 as int] == img@[a.0 as int]);
                                }
                            }
                        }
                        return (false, res1, res2);
                    }
                } else if seen2[b.0] {
                    proof {
                        let z = pre@[b.0 as int] as int;
                        assert(seen1@[z] && img@[z] == b.0);
                        assert forall|f: Map<int, int>| !self.orbit_iso(d1, d2, seq@, f) by {
                            if self.orbit_iso(d1, d2, seq@, f) {
                                assert(f[x.0 as int] == img@[x.0 as int]);
                                assert(self.link_agrees(x.0 as int, f[x.0 as int], seq@[j as int] as int, f));
                                assert(f[z] == img@[z]);
                                assert(f.contains_key(z));
                            }
                        }
                    }
                    return (false, res1, res2);
                } else {
                    proof {
                        assert(a.0 != x.0);
                        assert(b.0 != y.0);
                        assert(o1.contains(a.0 as int)) by {
                            assert(o1.contains(x.0 as int));
                        }
                        assert(o2.contains(b.0 as int)) by {
                            assert(seen2@[y.0 as int]);
                            assert(o2.contains(y.0 as int));
                        }
                    }
                    let ghost sb1 = seen1@;
                    let ghost ib = img@;
                    let ghost stb1 = stack1@;
                    let ghost stb2 = stack2@;
                    seen1.set(a.0, true);
                    seen2.set(b.0, true);
                    img.set(a.0, b.0);
                    pre.set(b.0, a.0);
                    stack1.push(a);
                    stack2.push(b);
                    proof {
                        assert(stack1@[stack1@.len() - 1] == a);
                        assert(stack2@[stack2@.len() - 1] == b);
                        assert forall|z: int| #[trigger] ids(stack1@).contains(z) <==> (ids(stb1).contains(z) || z == a.0) by {
                            if ids(stack1@).contains(z) {
                                let i = choose|i: int| 0 <= i < stack1@.len() && (#[trigger] stack1@[i]).0 == z;
                                if i < stb1.len() {
                                    assert(stb1[i] == stack1@[i]);
                                }
                            }
                            if ids(stb1).contains(z) {
                                let i = choose|i: int| 0 <= i < stb1.len() && (#[trigger] stb1[i]).0 == z;
                                assert(stack1@[i] == stb1[i]);
                            }
                        }
                        assert forall|z: int| #[trigger] ids(stack2@).contains(z) <==> (ids(stb2).contains(z) || z == b.0) by {
                            if ids(stack2@).contains(z) {
                                let i = choose|i: int| 0 <= i < stack2@.len() && (#[trigger] stack2@[i]).0 == z;
                                if i < stb2.len() {
                                    assert(stb2[i] == stack2@[i]);
                                }
                            }
                            if ids(stb2).contains(z) {
                                let i = choose|i: int| 0 <= i < stb2.len() && (#[trigger] stb2[i]).0 == z;
                                assert(stack2@[i] == stb2[i]);
                            }
                        }
                        assert forall|i: int| 0 <= i < res1@.len() implies res1@[i] != a by {
                            if res1@[i] == a {
                                assert(ids(res1@).contains(a.0 as int));
                            }
                        }
                        assert forall|i: int| 0 <= i < stb1.len() implies stb1[i] != a by {
                            if stb1[i] == a {
                                assert(ids(stb1).contains(a.0 as int));
                            }
                        }
                        assert forall|i: int| 0 <= i < stack1@.len() implies (#[trigger] stack1@[i]).0 < len && (stack1@[i].0 != 0 || stack1@[i].0 == d1)
                            && stack2@[i].0 == img@[stack1@[i].0 as int] && (stack2@[i].0 != 0 || stack2@[i].0 == d2) by {
                            if i < stb1.len() {
                                assert(stack1@[i] == stb1[i]);
                                assert(stack2@[i] == stb2[i]);
                                assert(ids(stb1).contains(stb1[i].0 as int));
                                assert(sb1[stb1[i].0 as int]);
                            }
                        }
                        assert forall|i: int| 0 <= i < res1@.len() implies (#[trigger] res1@[i]).0 < len && (res1@[i].0 != 0 || res1@[i].0 == d1)
                            && res2@[i].0 == img@[res1@[i].0 as int] && (res2@[i].0 != 0 || res2@[i].0 == d2) by {
                            assert(ids(res1@).contains(res1@[i].0 as int));
                            assert(sb1[res1@[i].0 as int]);
                        }
                        assert forall|i: int, jj: int| 0 <= i < res1@.len() - 1 && 0 <= jj < seq@.len() implies
                            #[trigger] self.link_matched(res1@[i].0 as int, res2@[i].0 as int, seq@[jj] as int, seen1@, img@) by {
                            assert(self.link_matched(res1@[i].0 as int, res2@[i].0 as int, seq@[jj] as int, sb1, ib));
                        }
                        assert forall|jj: int| 0 <= jj < j + 1 implies #[trigger] self.link_matched(x.0 as int, y.0 as int, seq@[jj] as int, seen1@, img@) by {
                            if jj < j {
                                assert(self.link_matched(x.0 as int, y.0 as int, seq@[jj] as int, sb1, ib));
                            }
                        }
                        assert forall|f: Map<int, int>, z: int| #[trigger] self.orbit_iso(d1, d2, seq@, f) && 0 <= z < len && seen1@[z] implies #[trigger] f[z] == img@[z] by {
                            if z == a.0 {
                                assert(f[x.0 as int] == ib[x.0 as int]);
                                assert(self.link_agrees(x.0 as int, f[x.0 as int], seq@[j as int] as int, f));
                            } else {
                                assert(sb1[z]);
                            }
                        }
                    }
                }
                j = j + 1;
            }
            proof {
                crate::iterators::lemma_distinct_bound(res1@, stack1@, len as int);
            }
        }
        proof {
            let s1 = Set::new(|z: int| 0 <= z < len && seen1@[z]);
            let s2 = Set::new(|z: int| 0 <= z < len && seen2@[z]);
            assert(ids(stack1@) =~= Set::<int>::empty());
            assert(ids(stack2@) =~= Set::<int>::empty());
            assert(ids(res1@) =~= s1) by {
                assert forall|z: int| ids(res1@).contains(z) implies 0 <= z < len by {
                    let i = choose|i: int| 0 <= i < res1@.len() && (#[trigger] res1@[i]).0 == z;
                }
            }
            assert(ids(res2@) =~= s2) by {
                assert forall|z: int| ids(res2@).contains(z) implies 0 <= z < len by {
                    let i = choose|i: int| 0 <= i < res2@.len() && (#[trigger] res2@[i]).0 == z;
                    assert(seen1@[res1@[i].0 as int]) by {
                        assert(ids(res1@).contains(res1@[i].0 as int));
                    }
                }
            }
            let f = Map::new(|z: int| 0 <= z < len && seen1@[z], |z: int| img@[z] as int);
            assert forall|z: int| s1.contains(z) implies exists|i: int| 0 <= i < res1@.len() && (#[trigger] res1@[i]).0 == z by {
                assert(ids(res1@).contains(z));
            }
            assert(self.closed_under(s1, seq@)) by {
                assert forall|z: int, j: int| s1.contains(z) && 0 <= j < seq@.len() implies {
                    let w = #[trigger] self.alpha(z, seq@[j] as int);
                    w == z || w == 0 || s1.contains(w)
                } by {
                    let i = choose|i: int| 0 <= i < res1@.len() && (#[trigger] res1@[i]).0 == z;
                    assert(self.link_matched(res1@[i].0 as int, res2@[i].0 as int, seq@[j] as int, seen1@, img@));
                    assert(self.alpha(z, seq@[j] as int) < len);
                }
            }
            assert(self.closed_under(s2, seq@)) by {
                assert forall|z: int, j: int| s2.contains(z) && 0 <= j < seq@.len() implies {
                    let w = #[trigger] self.alpha(z, seq@[j] as int);
                    w == z || w == 0 || s2.contains(w)
                } by {
                    assert(ids(res2@).contains(z));
                    let i = choose|i: int| 0 <= i < res2@.len() && (#[trigger] res2@[i]).0 == z;
                    assert(self.link_matched(res1@[i].0 as int, res2@[i].0 as int, seq@[j] as int, seen1@, img@));
                    assert(self.alpha(z, seq@[j] as int) < len);
                    let a = self.alpha(res1@[i].0 as int, seq@[j] as int);
                    if a != 0 {
                        assert(a < len);
                    }
                }
            }
            assert(f.dom() =~= o1) by {
                assert forall|z: int| o1.contains(z) implies s1.contains(z) by {
                    assert(s1.contains(d1));
                }
            }
            assert forall|z: int| o2.contains(z) implies s2.contains(z) by {
                assert(s2.contains(d2));
            }
            assert forall|z: int, w: int| #![trigger f[z], f[w]] f.contains_key(z) && f.contains_key(w) && z != w implies f[z] != f[w] by {
                assert(pre@[img@[z] as int] == z);
                assert(pre@[img@[w] as int] == w);
            }
            assert forall|w: int| #[trigger] o2.contains(w) <==> exists|z: int| f.contains_key(z) && #[trigger] f[z] == w by {
                if o2.contains(w) {
                    assert(s2.contains(w));
                    let z = pre@[w] as int;
                    assert(f.contains_key(z) && f[z] == w);
                }
                if exists|z: int| f.contains_key(z) && #[trigger] f[z] == w {
                    let z = choose|z: int| f.contains_key(z) && #[trigger] f[z] == w;
                    assert(seen2@[img@[z] as int]);
                }
            }
            assert forall|z: int, j: int| #![trigger f[z], seq@[j]] f.contains_key(z) && 0 <= j < seq@.len() implies self.link_agrees(z, f[z], seq@[j] as int, f) by {
                let i = choose|i: int| 0 <= i < res1@.len() && (#[trigger] res1@[i]).0 == z;
                assert(self.link_matched(res1@[i].0 as int, res2@[i].0 as int, seq@[j] as int, seen1@, img@));
                let a = self.alpha(z, seq@[j] as int);
                if a != 0 {
                    assert(a < len);
                }
            }
            assert(self.orbit_iso(d1, d2, seq@, f));
            assert forall|i: int| 1 <= i < res1@.len() implies (#[trigger] res1@[i]).0 != 0 by {
                assert(res1@[i] != res1@[0]);
            }
            assert(res2@.no_duplicates()) by {
                assert forall|i: int, k: int| 0 <= i < res2@.len() && 0 <= k < res2@.len() && i != k implies res2@[i] != res2@[k] by {
                    assert(res1@[i] != res1@[k]);
                    assert(ids(res1@).contains(res1@[i].0 as int));
                    assert(ids(res1@).contains(res1@[k].0 as int));
                    assert(pre@[img@[res1@[i].0 as int] as int] == res1@[i].0);
                    assert(pre@[img@[res1@[k].0 as int] as int] == res1@[k].0);
                }
            }
            assert forall|ss: Set<int>| #[trigger] self.closed_under(ss, seq@) && ss.contains(d1) implies ids(res1@).subset_of(ss) by {
                assert forall|z: int| ids(res1@).contains(z) implies ss.contains(z) by {
                    assert(o1.contains(z));
                }
            }
            assert forall|ss: Set<int>| #[trigger] self.closed_under(ss, seq@) && ss.contains(d2) implies ids(res2@).subset_of(ss) by {
                assert forall|z: int| ids(res2@).contains(z) implies ss.contains(z) by {
                    assert(o2.contains(z));
                }
            }
            assert(res2@[0].0 == d2);
            assert forall|i: int| 1 <= i < res2@.len() implies (#[trigger] res2@[i]).0 != 0 by {
                let z = res1@[i].0 as int;
                assert(res1@[i] != res1@[0]);
                assert(ids(res1@).contains(z));
                assert(seen1@[z]);
                assert(pre@[img@[z] as int] == z);
                assert(pre@[img@[d1] as int] == d1);
                assert(res2@[i].0 != res2@[0].0);
            }
            assert forall|i: int| 0 <= i < res2@.len() implies (#[trigger] res2@[i]).0 < self.len() by {
                assert(ids(res1@).contains(res1@[i].0 as int));
            }
            assert(self.closed_under(ids(res2@), seq@));
            assert(self.is_orbit(d1, seq@, res1@));
            assert(self.is_orbit(d2, seq@, res2@));
            assert forall|g: Map<int, int>, k: int| #[trigger] self.orbit_iso(d1, d2, seq@, g) && 0 <= k < res1@.len()
                implies g[(#[trigger] res1@[k]).0 as int] == res2@[k].0 by {
                assert(ids(res1@).contains(res1@[k].0 as int));
            }
        }
        (true, res1, res2)
    }
}

} // verus!
