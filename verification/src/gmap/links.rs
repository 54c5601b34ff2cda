//! Weak links: `NL` extra references from each dart to other darts, outside
//! the alpha-link rules, for uses the caller defines.

use vstd::prelude::*;
use crate::index::DartIndex;
use super::NGMap;

verus! {

impl<const N: usize, const NA: usize, const NL: usize> NGMap<N, NA, NL> {
    /// Weak link `ilink` of dart `d`.
    pub open spec fn link(&self, d: int, ilink: int) -> DartIndex {
        self.darts@[d].links@[ilink]
    }

    /// Weak link `ilink` of `dart`, whatever it holds.
    pub(crate) fn get_link_raw(&self, dart: &DartIndex, ilink: usize) -> (r: DartIndex)
        requires
            self.wf(),
            dart.0 < self.len(),
            ilink < NL,
        ensures
            r == self.link(dart.0 as int, ilink as int),
    {
        assert(self.darts@[dart.0 as int].wf());
        self.darts[dart.0].get_link(ilink)
    }

    /// Weak link `ilink` of `dart`, or `None` if the dart is not in use or
    /// the link points to dart 0 or to the dart itself.
    pub fn get_link(&self, dart: &DartIndex, ilink: usize) -> (r: Option<DartIndex>)
        requires
            self.wf(),
            dart.0 < self.len(),
            ilink < NL,
        ensures
            r == (if !self.is_init(dart.0 as int) || self.link(dart.0 as int, ilink as int).0 == 0
                || self.link(dart.0 as int, ilink as int).0 == dart.0 {
                None
            } else {
                Some(self.link(dart.0 as int, ilink as int))
            }),
    {
        if !self.darts[dart.0].is_init() {
            return None;
        }
        assert(self.darts@[dart.0 as int].wf());
        let link = self.darts[dart.0].get_link(ilink);
        if link.0 == 0 || link.0 == dart.0 {
            return None;
        }
        Some(link)
    }

    /// Sets weak link `ilink` of `dart` to `link`.
    pub fn set_link(&mut self, dart: &DartIndex, link: DartIndex, ilink: usize)
        requires
            old(self).wf(),
            dart.0 < old(self).len(),
            ilink < NL,
        ensures
            final(self).wf(),
            final(self).same_books(old(self)),
            final(self).len() == old(self).len(),
            final(self).darts@[dart.0 as int].links@ == old(self).darts@[dart.0 as int].links@.update(ilink as int, link),
            final(self).darts@[dart.0 as int].alphas@ == old(self).darts@[dart.0 as int].alphas@,
            final(self).darts@[dart.0 as int].attributes@ == old(self).darts@[dart.0 as int].attributes@,
            final(self).darts@[dart.0 as int].init == old(self).darts@[dart.0 as int].init,
            forall|d: int| 0 <= d < old(self).len() && d != dart.0 ==> #[trigger] final(self).darts@[d] == old(self).darts@[d],
    {
        assert(self.darts@[dart.0 as int].wf());
        let ghost before = *self;
        self.darts[dart.0].set_link(link, ilink);
        proof {
            assert forall|d: int, k: int| 0 <= d < self.len() && 0 <= k < N implies #[trigger] self.alpha(d, k) < self.len() by {
                assert(before.alpha(d, k) < before.len());
            }
            assert forall|d: int| 0 <= d < self.len() implies (#[trigger] self.darts@[d]).wf() by {
                assert(before.darts@[d].wf());
            }
            assert forall|m: usize| self.marks@.contains_key(m) implies (#[trigger] self.marks@[m])@.len() <= self.len() by {
                assert(before.marks@[m]@.len() <= before.len());
            }
        }
    }
}

} // verus!
