//! A dart: the atom of a generalized map. It stores its alpha links (one per
//! dimension below `N`), the indices of the attributes of its cells (one per
//! attribute slot below `NA`) and `NL` weak links to other darts.

use vstd::prelude::*;
use crate::index::{DartIndex, AttributeIndex};

verus! {

pub struct Dart<const N: usize, const NA: usize, const NL: usize> {
    pub init: bool,
    pub alphas: Vec<DartIndex>,
    pub attributes: Vec<AttributeIndex>,
    pub links: Vec<DartIndex>,
}

/// `n` copies of `x`.
pub open spec fn repeat<T>(x: T, n: nat) -> Seq<T> {
    Seq::new(n, |k: int| x)
}

/// `n` copies of `x`, built in a vector.
pub fn vec_repeat<T: Copy>(x: T, n: usize) -> (r: Vec<T>)
    ensures
        r@ == repeat(x, n as nat),
{
    let mut r: Vec<T> = Vec::new();
    let mut k: usize = 0;
    while k < n
        invariant
            k <= n,
            r@ == repeat(x, k as nat),
        decreases n - k,
    {
        r.push(x);
        k = k + 1;
        assert(r@ =~= repeat(x, k as nat));
    }
    r
}

impl<const N: usize, const NA: usize, const NL: usize> Dart<N, NA, NL> {
    /// Its vectors have the lengths that `N`, `NA` and `NL` give.
    pub open spec fn wf(&self) -> bool {
        &&& self.alphas@.len() == N
        &&& self.attributes@.len() == NA
        &&& self.links@.len() == NL
    }

    /// alpha(`k`) of this dart, as an integer.
    pub open spec fn alpha(&self, k: int) -> int {
        self.alphas@[k].0 as int
    }

    /// A new dart at position `index`: alpha(i)-free for every `i` below
    /// `nmax` (linked to itself) and linked to dart 0 above; no attributes;
    /// weak links to itself.
    pub fn new_at(index: usize, nmax: &usize) -> (r: Self)
        ensures
            r.wf(),
            r.init,
            forall|k: int| 0 <= k < N ==> #[trigger] r.alphas@[k] == DartIndex(if k < *nmax { index } else { 0 }),
            r.attributes@ == repeat(AttributeIndex(usize::MAX), NA as nat),
            r.links@ == repeat(DartIndex(index), NL as nat),
    {
        let mut alphas: Vec<DartIndex> = Vec::new();
        let mut k: usize = 0;
        while k < N
            invariant
                k <= N,
                alphas@.len() == k,
                forall|j: int| 0 <= j < k ==> #[trigger] alphas@[j] == DartIndex(if j < *nmax { index } else { 0 }),
            decreases N - k,
        {
            if k < *nmax {
                alphas.push(DartIndex(index));
            } else {
                alphas.push(DartIndex(0));
            }
            k = k + 1;
        }
        let attributes = vec_repeat(AttributeIndex::null(), NA);
        let links = vec_repeat(DartIndex(index), NL);
        Dart { init: true, alphas, attributes, links }
    }

    /// alpha(`alpha`) of this dart.
    pub fn get_alpha(&self, alpha: usize) -> (r: DartIndex)
        requires
            self.wf(),
            alpha < N,
        ensures
            r == self.alphas@[alpha as int],
    {
        self.alphas[alpha]
    }

    /// Sets alpha(`alpha`) of this dart to `other`.
    pub fn set_alpha(&mut self, other: &DartIndex, alpha: usize)
        requires
            old(self).wf(),
            alpha < N,
        ensures
            final(self).wf(),
            final(self).alphas@ == old(self).alphas@.update(alpha as int, *other),
            final(self).attributes@ == old(self).attributes@,
            final(self).links@ == old(self).links@,
            final(self).init == old(self).init,
    {
        self.alphas.set(alpha, *other);
    }

    /// Marks the dart as in use (`true`) or removed (`false`).
    pub fn set_init(&mut self, init_marker: bool)
        ensures
            *final(self) == (Dart::<N, NA, NL> { init: init_marker, ..*old(self) }),
    {
        self.init = init_marker;
    }

    /// `true` while the dart is in use.
    pub fn is_init(&self) -> (r: bool)
        ensures
            r == self.init,
    {
        self.init
    }

    /// Sets the attribute index of slot `idim`.
    pub fn set_attribute_index(&mut self, index: AttributeIndex, idim: usize)
        requires
            old(self).wf(),
            idim < NA,
        ensures
            final(self).wf(),
            final(self).attributes@ == old(self).attributes@.update(idim as int, index),
            final(self).alphas@ == old(self).alphas@,
            final(self).links@ == old(self).links@,
            final(self).init == old(self).init,
    {
        self.attributes.set(idim, index);
    }

    /// The attribute index of slot `idim`.
    pub fn get_attribute_index(&self, idim: usize) -> (r: AttributeIndex)
        requires
            self.wf(),
            idim < NA,
        ensures
            r == self.attributes@[idim as int],
    {
        self.attributes[idim]
    }

    /// `true` if slot `idim` holds a non-null attribute index.
    pub fn is_attribute_nonfree(&self, idim: usize) -> (r: bool)
        requires
            self.wf(),
            idim < NA,
        ensures
            r == !self.attributes@[idim as int].is_null(),
    {
        self.attributes[idim].0 != usize::MAX
    }

    /// Sets weak link `ilink` to `other`.
    pub fn set_link(&mut self, other: DartIndex, ilink: usize)
        requires
            old(self).wf(),
            ilink < NL,
        ensures
            final(self).wf(),
            final(self).links@ == old(self).links@.update(ilink as int, other),
            final(self).alphas@ == old(self).alphas@,
            final(self).attributes@ == old(self).attributes@,
            final(self).init == old(self).init,
    {
        self.links.set(ilink, other);
    }

    /// Weak link `ilink`.
    pub fn get_link(&self, ilink: usize) -> (r: DartIndex)
        requires
            self.wf(),
            ilink < NL,
        ensures
            r == self.links@[ilink as int],
    {
        self.links[ilink]
    }

    /// The same dart with room for `N1` alphas, `NA1` attribute slots and
    /// `NL1` weak links; the added entries hold index 0.
    pub fn reallocate<const N1: usize, const NA1: usize, const NL1: usize>(self) -> (r: Dart<N1, NA1, NL1>)
        requires
            self.wf(),
            N <= N1,
            NA <= NA1,
            NL <= NL1,
        ensures
            r.wf(),
            r.init == self.init,
            r.alphas@ == self.alphas@ + repeat(DartIndex(0), (N1 - N) as nat),
            r.attributes@ == self.attributes@ + repeat(AttributeIndex(0), (NA1 - NA) as nat),
            r.links@ == self.links@ + repeat(DartIndex(0), (NL1 - NL) as nat),
    {
        let mut alphas = self.alphas;
        let mut attributes = self.attributes;
        let mut links = self.links;
        let mut k: usize = N;
        while k < N1
            invariant
                N <= k <= N1,
                alphas@ == self.alphas@ + repeat(DartIndex(0), (k - N) as nat),
            decreases N1 - k,
        {
            alphas.push(DartIndex(0));
            k = k + 1;
            assert(alphas@ =~= self.alphas@ + repeat(DartIndex(0), (k - N) as nat));
        }
        let mut k: usize = NA;
        while k < NA1
            invariant
                NA <= k <= NA1,
                attributes@ == self.attributes@ + repeat(AttributeIndex(0), (k - NA) as nat),
            decreases NA1 - k,
        {
            attributes.push(AttributeIndex(0));
            k = k + 1;
            assert(attributes@ =~= self.attributes@ + repeat(AttributeIndex(0), (k - NA) as nat));
        }
        let mut k: usize = NL;
        while k < NL1
            invariant
                NL <= k <= NL1,
                links@ == self.links@ + repeat(DartIndex(0), (k - NL) as nat),
            decreases NL1 - k,
        {
            links.push(DartIndex(0));
            k = k + 1;
            assert(links@ =~= self.links@ + repeat(DartIndex(0), (k - NL) as nat));
        }
        Dart::<N1, NA1, NL1> { init: self.init, alphas, attributes, links }
    }
}

} // verus!
