//! Contraction of cells: an i-cell is deleted while the (i-1)-cells at its
//! ends are joined into one.

use vstd::prelude::*;
use crate::index::DartIndex;
use crate::orbits::seq_without;
use crate::iterators::ids;
use super::NGMap;

verus! {

broadcast use vstd::std_specs::hash::group_hash_axioms;

impl<const N: usize, const NA: usize, const NL: usize> NGMap<N, NA, NL> {
    /// The `idim`-cell of `d` may be contracted: it is not a vertex, and it
    /// is an edge or alpha(idim - 2) and alpha(idim - 1) commute around
    /// each of its darts.
    pub open spec fn contractible(&self, d: int, idim: int) -> bool {
        &&& idim != 0
        &&& {
            ||| idim == 1
            ||| forall|x: int| #[trigger] self.cell(d, idim).contains(x) ==>
                    self.alpha(self.alpha(x, idim - 2), idim - 1) == self.alpha(self.alpha(x, idim - 1), idim - 2)
        }
    }

    /// `true` if the `idim`-cell of `dart` can be contracted (see
    /// `contractible`).
    pub fn is_contractible(&self, dart: &DartIndex, idim: usize) -> (r: bool)
        requires
            self.wf(),
            dart.0 < self.len(),
            idim < self.ndims,
        ensures
            r == self.contractible(dart.0 as int, idim as int),
    {
        if idim == 0 {
            return false;
        }
        if idim == 1 {
            return true;
        }
        let it = self.iter_darts_in_cell(*dart, idim);
        let darts = &it.items;
        let ghost cell = self.cell(dart.0 as int, idim as int);
        proof {
            self.lemma_orbit_ids(dart.0 as int, seq_without(idim as int, N as int), darts@);
        }
        let mut i: usize = 0;
        while i < darts.len()
            invariant
                self.wf(),
                2 <= idim < N,
                ids(darts@) == cell,
                cell == self.cell(dart.0 as int, idim as int),
                forall|k: int| 0 <= k < darts@.len() ==> (#[trigger] darts@[k]).0 < self.len(),
                i <= darts@.len(),
                forall|k: int| 0 <= k < i ==> {
                    let x = (#[trigger] darts@[k]).0 as int;
                    self.alpha(self.alpha(x, idim - 2), idim - 1) == self.alpha(self.alpha(x, idim - 1), idim - 2)
                },
            decreases darts@.len() - i,
        {
            let d = darts[i];
            let a2 = self.get_alpha(&d, idim - 2);
            let da1 = self.get_alpha(&a2, idim - 1);
            let a1 = self.get_alpha(&d, idim - 1);
            let da2 = self.get_alpha(&a1, idim - 2);
            if da1 != da2 {
                proof {
                    assert(cell.contains(d.0 as int)) by {
                        assert(darts@[i as int].0 == d.0);
                    }
                    assert(self.cell(dart.0 as int, idim as int).contains(d.0 as int));
                }
                return false;
            }
            i = i + 1;
        }
        proof {
            assert forall|x: int| #[trigger] cell.contains(x) implies
                self.alpha(self.alpha(x, idim - 2), idim - 1) == self.alpha(self.alpha(x, idim - 1), idim - 2) by {
                let k = choose|k: int| 0 <= k < darts@.len() && #[trigger] darts@[k].0 == x;
            }
        }
        true
    }

    /// Contracts the `idim`-cell of `dart`, joining the (idim - 1)-cells at
    /// its ends: each outside alpha(`idim`) neighbour of the cell is
    /// relinked to the first outside dart reached by walking through the
    /// cell along alpha(idim - 1) and alpha(`idim`), and the darts of the
    /// cell are removed. Only a contractible cell is contracted (see
    /// `contractible`); otherwise the map is left as it is. A mark is
    /// reserved for the cell's darts and freed again.
    pub fn contract(&mut self, dart: &DartIndex, idim: usize)
        requires
            old(self).wf(),
            dart.0 < old(self).len(),
            idim < old(self).ndims,
            old(self).contractible(dart.0 as int, idim as int) ==> old(self).excisable(dart.0 as int, idim as int, idim - 1),
        ensures
            final(self).wf(),
            !old(self).contractible(dart.0 as int, idim as int) ==> *final(self) == *old(self),
            old(self).contractible(dart.0 as int, idim as int) ==> exists|listing: Seq<DartIndex>|
                #![trigger final(self).excised(old(self), listing, idim as int, idim - 1)]
                {
                    &&& old(self).is_orbit(dart.0 as int, seq_without(idim as int, N as int), listing)
                    &&& final(self).excised(old(self), listing, idim as int, idim - 1)
                },
            final(self).marks@ == old(self).marks@,
            old(self).involutive() && old(self).flat_above() && old(self).placeholder_unlinked() && old(self).is_init(dart.0 as int)
                ==> final(self).involutive(),
            old(self).involutive() && old(self).flat_above() && old(self).is_init(dart.0 as int) && old(self).contractible(dart.0 as int, idim as int) ==> {
                let cell = old(self).cell(dart.0 as int, idim as int);
                &&& forall|x: int| 0 <= x < old(self).len() ==> #[trigger] final(self).is_init(x) == (old(self).is_init(x) && !cell.contains(x))
                &&& forall|x: int, k: int| 0 <= x < old(self).len() && old(self).is_init(x) && 0 <= k < N ==> #[trigger] final(self).alpha(x, k) == (
                    if cell.contains(x) {
                        x
                    } else if k == idim && cell.contains(old(self).alpha(x, idim as int)) {
                        old(self).walk_end(cell, old(self).alpha(x, idim as int), idim as int, idim - 1)
                    } else {
                        old(self).alpha(x, k)
                    })
            },
    {
        if !self.is_contractible(dart, idim) {
            return;
        }
        let ghost o = *old(self);
        let (last, listing) = self.excise(dart, idim, idim - 1);
        let ghost cut = *self;
        let mark = self.reserve_mark();
        self.mark_all(&listing, &mark);
        self.free_mark(mark);
        proof {
            assert(self.darts@ == cut.darts@);
            assert forall|d: int, k: int| 0 <= d < o.len() && 0 <= k < N implies #[trigger] self.alpha(d, k) == cut.alpha(d, k) by {}
            assert(self.excised(&o, listing@, idim as int, idim - 1));
            assert(self.marks@ =~= o.marks@);
            if o.contractible(dart.0 as int, idim as int) && o.involutive() && o.flat_above() && o.placeholder_unlinked() && o.is_init(dart.0 as int) {
                o.lemma_excised_keeps_involutive(self, dart.0 as int, listing@, idim as int, idim - 1);
            }
            if o.contractible(dart.0 as int, idim as int) && o.involutive() && o.flat_above() && o.is_init(dart.0 as int) {
                o.lemma_excised_plain(self, dart.0 as int, listing@, idim as int, idim - 1);
            }
        }
    }
}

} // verus!
