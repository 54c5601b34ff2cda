//! When a cell can be removed or contracted. Removing an i-cell joins the
//! two (i+1)-cells around it, which is possible only where the cell sits
//! between exactly two of them: alpha(i+1) and alpha(i+2) commute on it
//! (a vertex where three edges of a surface meet cannot be removed).
//! Contracting an i-cell joins the (i-1)-cells at its ends, which is
//! possible only where alpha(i-2) and alpha(i-1) commute on it (a face with
//! more than two edges cannot be contracted).

use vstd::prelude::*;
use super::NGMap;

verus! {

impl<const N: usize, const NA: usize, const NL: usize> NGMap<N, NA, NL> {
    /// A cell of the top dimension can always be removed; below it, the
    /// `idim`-cell of `d` can be removed exactly when, at each of its darts,
    /// going along alpha(idim + 1) then alpha(idim + 2) ends where going
    /// along alpha(idim + 2) then alpha(idim + 1) ends.
    pub proof fn lemma_removable_when_commuting(&self, d: int, idim: int)
        ensures
            idim + 1 == self.ndims ==> self.removable(d, idim),
            idim + 1 != self.ndims ==> (self.removable(d, idim) <==> forall|x: int| #[trigger] self.cell(d, idim).contains(x) ==> {
                let up_then_over = self.alpha(self.alpha(x, idim + 1), idim + 2);
                let over_then_up = self.alpha(self.alpha(x, idim + 2), idim + 1);
                up_then_over == over_then_up
            }),
    {
    }

    /// An edge can always be contracted and a vertex never; the
    /// `idim`-cell of `d` for `idim >= 2` can be contracted exactly when, at
    /// each of its darts, going along alpha(idim - 1) then alpha(idim - 2)
    /// ends where going along alpha(idim - 2) then alpha(idim - 1) ends.
    pub proof fn lemma_contractible_when_commuting(&self, d: int, idim: int)
        ensures
            !self.contractible(d, 0),
            self.contractible(d, 1),
            idim >= 2 ==> (self.contractible(d, idim) <==> forall|x: int| #[trigger] self.cell(d, idim).contains(x) ==> {
                let a = self.alpha(self.alpha(x, idim - 1), idim - 2);
                let b = self.alpha(self.alpha(x, idim - 2), idim - 1);
                a == b
            }),
    {
    }

    /// The turn around a dart along alpha(`j`) then alpha(`l`).
    pub open spec fn turn(&self, x: int, j: int, l: int) -> int {
        self.alpha(self.alpha(x, j), l)
    }

    /// With involutive links, two links `j` and `l` below the dimension
    /// commute on a cell closed under both exactly when turning twice
    /// along them leads back to each dart: the cell lies between exactly
    /// two cells of the kind that the turn walks around.
    proof fn lemma_commute_iff_turn_twice(&self, cell: Set<int>, j: int, l: int)
        requires
            self.wf(),
            self.involutive(),
            0 <= j < self.ndims,
            0 <= l < self.ndims,
            forall|x: int| #[trigger] cell.contains(x) ==> 0 <= x < self.len() && self.is_init(x)
                && cell.contains(self.alpha(x, j)) && cell.contains(self.alpha(x, l)),
        ensures
            (forall|x: int| #[trigger] cell.contains(x) ==> self.alpha(self.alpha(x, j), l) == self.alpha(self.alpha(x, l), j))
                <==> (forall|x: int| #[trigger] cell.contains(x) ==> self.turn(self.turn(x, j, l), j, l) == x),
    {
        if forall|x: int| #[trigger] cell.contains(x) ==> self.alpha(self.alpha(x, j), l) == self.alpha(self.alpha(x, l), j) {
            assert forall|x: int| #[trigger] cell.contains(x) implies self.turn(self.turn(x, j, l), j, l) == x by {
                let y = self.alpha(x, j);
                assert(cell.contains(y));
                assert(self.alpha(y, j) == x);
                // commuting at y: alpha(alpha(y, j), l) == alpha(alpha(y, l), j)
                assert(self.alpha(self.alpha(y, j), l) == self.alpha(self.alpha(y, l), j));
                let gx = self.alpha(x, l);
                assert(cell.contains(gx));
                assert(self.alpha(gx, l) == x);
            }
        }
        if forall|x: int| #[trigger] cell.contains(x) ==> self.turn(self.turn(x, j, l), j, l) == x {
            assert forall|x: int| #[trigger] cell.contains(x) implies self.alpha(self.alpha(x, j), l) == self.alpha(self.alpha(x, l), j) by {
                let y = self.alpha(x, j);
                assert(cell.contains(y));
                assert(self.alpha(y, j) == x);
                assert(self.turn(self.turn(y, j, l), j, l) == y);
                // alpha(alpha(alpha(x, l), j), l) == alpha(x, j)
                let gx = self.alpha(x, l);
                assert(cell.contains(gx));
                let fgx = self.alpha(gx, j);
                assert(cell.contains(fgx));
                assert(self.alpha(fgx, l) == y);
                assert(self.alpha(y, l) == fgx);
            }
        }
    }

    /// Below the dimension, with involutive links that lead nowhere at or
    /// above it and dart 0 linked only to itself, the `idim`-cell of a dart
    /// `d` in use can be removed exactly when turning twice along
    /// alpha(idim + 1) then alpha(idim + 2) leads back to each of its darts.
    /// So a vertex of a surface where three or more edges meet, around
    /// which the turn runs through all of them, is never removable.
    pub proof fn lemma_removable_when_turning_back(&self, d: int, idim: int)
        requires
            self.wf(),
            self.involutive(),
            self.flat_above(),
            self.placeholder_unlinked(),
            0 < d < self.len(),
            self.is_init(d),
            0 <= idim,
            idim + 2 < self.ndims,
        ensures
            self.removable(d, idim) <==> forall|x: int| #[trigger] self.cell(d, idim).contains(x)
                ==> self.turn(self.turn(x, idim + 1, idim + 2), idim + 1, idim + 2) == x,
    {
        let cell = self.cell(d, idim);
        self.lemma_cell_closed_in_use(d, idim, idim + 1);
        self.lemma_cell_closed_in_use(d, idim, idim + 2);
        self.lemma_commute_iff_turn_twice(cell, idim + 1, idim + 2);
        assert((forall|x: int| #[trigger] cell.contains(x) ==> self.alpha(self.alpha(x, idim + 1), idim + 2) == self.alpha(self.alpha(x, idim + 2), idim + 1))
            <==> self.removable(d, idim));
    }

    /// For `idim >= 2` below the dimension, with involutive links that lead
    /// nowhere at or above it and dart 0 linked only to itself, the
    /// `idim`-cell of a dart `d` in use can be contracted exactly when
    /// turning twice along alpha(idim - 2) then alpha(idim - 1) leads back
    /// to each of its darts. So a face with more than two edges, around
    /// which the turn runs through all of them, is never contractible.
    pub proof fn lemma_contractible_when_turning_back(&self, d: int, idim: int)
        requires
            self.wf(),
            self.involutive(),
            self.flat_above(),
            self.placeholder_unlinked(),
            0 < d < self.len(),
            self.is_init(d),
            2 <= idim < self.ndims,
        ensures
            self.contractible(d, idim) <==> forall|x: int| #[trigger] self.cell(d, idim).contains(x)
                ==> self.turn(self.turn(x, idim - 2, idim - 1), idim - 2, idim - 1) == x,
    {
        let cell = self.cell(d, idim);
        self.lemma_cell_closed_in_use(d, idim, idim - 2);
        self.lemma_cell_closed_in_use(d, idim, idim - 1);
        self.lemma_commute_iff_turn_twice(cell, idim - 2, idim - 1);
        assert((forall|x: int| #[trigger] cell.contains(x) ==> self.alpha(self.alpha(x, idim - 2), idim - 1) == self.alpha(self.alpha(x, idim - 1), idim - 2))
            <==> self.contractible(d, idim));
    }

    /// The darts of the `idim`-cell of a dart in use are in use and their
    /// alpha(`k`) neighbours, for `k` other than `idim` below the
    /// dimension, lie in the cell.
    proof fn lemma_cell_closed_in_use(&self, d: int, idim: int, k: int)
        requires
            self.wf(),
            self.involutive(),
            self.flat_above(),
            self.placeholder_unlinked(),
            0 < d < self.len(),
            self.is_init(d),
            0 <= idim < self.ndims,
            0 <= k < self.ndims,
            k != idim,
        ensures
            forall|x: int| #[trigger] self.cell(d, idim).contains(x) ==> 0 <= x < self.len() && self.is_init(x)
                && self.cell(d, idim).contains(self.alpha(x, k)),
    {
        let iseq = crate::orbits::seq_without(idim, N as int);
        assert forall|j: int| 0 <= j < iseq.len() implies #[trigger] iseq[j] < N by {
            assert(iseq[j] == (if j < idim { j } else { j + 1 }) as usize);
        }
        self.lemma_orbit_darts_in_use(d, iseq);
        assert forall|x: int| #[trigger] self.cell(d, idim).contains(x) implies 0 <= x < self.len() && self.is_init(x)
            && self.cell(d, idim).contains(self.alpha(x, k)) by {
            self.lemma_cell_step(d, idim, x, k);
            let y = self.alpha(x, k);
            if y == 0 {
                assert(self.alpha(0, k) == x);
            }
        }
    }
}

} // verus!
