//! Navigation from a single dart: each step follows one alpha link and stops
//! (with `None`) when the dart is free for that link.

use vstd::prelude::*;
use crate::index::DartIndex;
use crate::gmap::NGMap;

verus! {

impl<const N: usize, const NA: usize, const NL: usize> NGMap<N, NA, NL> {
    /// Following alpha(`k`) from `d`, unless `d` is alpha(`k`)-free.
    pub open spec fn step(&self, d: int, k: int) -> Option<int> {
        if self.alpha(d, k) != d {
            Some(self.alpha(d, k))
        } else {
            None
        }
    }

    /// Following the alpha links `ks` in turn from `d`, stopping at the
    /// first free link.
    pub open spec fn walk(&self, d: int, ks: Seq<int>) -> Option<int>
        decreases ks.len(),
    {
        if ks.len() == 0 {
            Some(d)
        } else {
            match self.step(d, ks[0]) {
                Some(e) => self.walk(e, ks.drop_first()),
                None => None,
            }
        }
    }
}

/// A dart of a map, ready to walk along alpha links.
pub struct DartInspector<'a, const N: usize, const NA: usize, const NL: usize> {
    pub index: DartIndex,
    pub map: &'a NGMap<N, NA, NL>,
}

impl<'a, const N: usize, const NA: usize, const NL: usize> DartInspector<'a, N, NA, NL> {
    /// The inspector can step: its map is well-formed and its dart lies in
    /// it.
    pub open spec fn valid(&self) -> bool {
        self.map.wf() && self.index.0 < self.map.len()
    }

    /// Where `ks` leads from this dart.
    pub open spec fn walks_to(&self, ks: Seq<int>, r: Option<Self>) -> bool {
        match self.map.walk(self.index.0 as int, ks) {
            Some(e) => r is Some && r.unwrap().index.0 == e && r.unwrap().map == self.map,
            None => r is None,
        }
    }

    pub fn new(index: DartIndex, map: &'a NGMap<N, NA, NL>) -> (r: Self)
        ensures
            r.index == index,
            r.map == map,
    {
        DartInspector { index: index, map: map }
    }

    /// The dart reached.
    pub fn release(self) -> (r: DartIndex)
        ensures
            r == self.index,
    {
        self.index
    }

    /// The dart reached, by reference.
    pub fn peek(&self) -> (r: &DartIndex)
        ensures
            *r == self.index,
    {
        &self.index
    }

    /// Steps along alpha(`idim`), or `None` if the dart is alpha(`idim`)-free.
    pub fn alpha(self, idim: usize) -> (r: Option<Self>)
        requires
            self.valid(),
            idim < N,
        ensures
            self.walks_to(seq![idim as int], r),
            r matches Some(x) ==> x.valid(),
    {
        let index = self.map.darts[self.index.0].get_alpha(idim);
        proof {
            reveal_with_fuel(NGMap::walk, 2);
        }
        if index.0 != self.index.0 {
            return Some(Self::new(index, self.map));
        }
        None
    }

    /// alpha(0) then alpha(1).
    pub fn next(self) -> (r: Option<Self>)
        requires
            self.valid(),
            N > 1,
        ensures
            self.walks_to(seq![0int, 1], r),
            r matches Some(x) ==> x.valid(),
    {
        proof {
            reveal_with_fuel(NGMap::walk, 3);
        }
        match self.alpha(0) {
            Some(x) => x.alpha(1),
            None => None,
        }
    }

    /// alpha(1) then alpha(0).
    pub fn prev(self) -> (r: Option<Self>)
        requires
            self.valid(),
            N > 1,
        ensures
            self.walks_to(seq![1int, 0], r),
            r matches Some(x) ==> x.valid(),
    {
        proof {
            reveal_with_fuel(NGMap::walk, 3);
        }
        match self.alpha(1) {
            Some(x) => x.alpha(0),
            None => None,
        }
    }

    /// alpha(2) then alpha(0): the next dart around the vertex.
    pub fn rot_ccw(self) -> (r: Option<Self>)
        requires
            self.valid(),
            N > 2,
        ensures
            self.walks_to(seq![2int, 0], r),
            r matches Some(x) ==> x.valid(),
    {
        proof {
            reveal_with_fuel(NGMap::walk, 3);
        }
        match self.alpha(2) {
            Some(x) => x.alpha(0),
            None => None,
        }
    }

    /// alpha(0) then alpha(2): the previous dart around the vertex.
    pub fn rot_cw(self) -> (r: Option<Self>)
        requires
            self.valid(),
            N > 2,
        ensures
            self.walks_to(seq![0int, 2], r),
            r matches Some(x) ==> x.valid(),
    {
        proof {
            reveal_with_fuel(NGMap::walk, 3);
        }
        match self.alpha(0) {
            Some(x) => x.alpha(2),
            None => None,
        }
    }

    /// Two counter-clockwise rotations, then alpha(1).
    pub fn forward(self) -> (r: Option<Self>)
        requires
            self.valid(),
            N > 2,
        ensures
            self.walks_to(seq![2int, 0, 2, 0, 1], r),
            r matches Some(x) ==> x.valid(),
    {
        proof {
            reveal_with_fuel(NGMap::walk, 6);
            assert(seq![2int, 0, 2, 0, 1].drop_first() =~= seq![0int, 2, 0, 1]);
            assert(seq![0int, 2, 0, 1].drop_first() =~= seq![2int, 0, 1]);
            assert(seq![2int, 0, 1].drop_first() =~= seq![0int, 1]);
            assert(seq![2int, 0].drop_first() =~= seq![0int]);
        }
        match self.rot_ccw() {
            Some(x) => match x.rot_ccw() {
                Some(y) => y.alpha(1),
                None => None,
            },
            None => None,
        }
    }

    /// alpha(1), then two counter-clockwise rotations.
    pub fn back(self) -> (r: Option<Self>)
        requires
            self.valid(),
            N > 2,
        ensures
            self.walks_to(seq![1int, 2, 0, 2, 0], r),
            r matches Some(x) ==> x.valid(),
    {
        proof {
            reveal_with_fuel(NGMap::walk, 6);
            assert(seq![1int, 2, 0, 2, 0].drop_first() =~= seq![2int, 0, 2, 0]);
            assert(seq![2int, 0, 2, 0].drop_first() =~= seq![0int, 2, 0]);
            assert(seq![0int, 2, 0].drop_first() =~= seq![2int, 0]);
            assert(seq![2int, 0].drop_first() =~= seq![0int]);
        }
        match self.alpha(1) {
            Some(x) => match x.rot_ccw() {
                Some(y) => y.rot_ccw(),
                None => None,
            },
            None => None,
        }
    }

    /// Two counter-clockwise rotations.
    pub fn reflect(self) -> (r: Option<Self>)
        requires
            self.valid(),
            N > 2,
        ensures
            self.walks_to(seq![2int, 0, 2, 0], r),
            r matches Some(x) ==> x.valid(),
    {
        proof {
            reveal_with_fuel(NGMap::walk, 5);
            assert(seq![2int, 0, 2, 0].drop_first() =~= seq![0int, 2, 0]);
            assert(seq![0int, 2, 0].drop_first() =~= seq![2int, 0]);
            assert(seq![2int, 0].drop_first() =~= seq![0int]);
        }
        match self.rot_ccw() {
            Some(x) => x.rot_ccw(),
            None => None,
        }
    }
}

} // verus!
