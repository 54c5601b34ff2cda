//! Typed wrappers for indices of darts, marks and attributes.

use vstd::prelude::*;
use vstd::std_specs::convert::FromSpecImpl;

verus! {

/// Index of a dart in a generalized map. Dart 0 is the null dart.
#[derive(Clone, Copy, PartialEq, Eq, Structural, Hash, Debug)]
pub struct DartIndex(pub usize);

impl DartIndex {
    /// The underlying integer.
    pub fn value(&self) -> (r: usize)
        ensures
            r == self.0,
    {
        self.0
    }
}

impl From<usize> for DartIndex {
    fn from(other: usize) -> (r: Self) {
        DartIndex(other)
    }
}

impl FromSpecImpl<usize> for DartIndex {
    open spec fn obeys_from_spec() -> bool {
        true
    }

    open spec fn from_spec(v: usize) -> Self {
        DartIndex(v)
    }
}

/// Index of a mark (a boolean flag per dart).
#[derive(Clone, Copy, PartialEq, Eq, Structural, Hash, Debug)]
pub struct MarkIndex(pub usize);

impl MarkIndex {
    /// The underlying integer.
    pub fn value(&self) -> (r: usize)
        ensures
            r == self.0,
    {
        self.0
    }
}

impl From<usize> for MarkIndex {
    fn from(other: usize) -> (r: Self) {
        MarkIndex(other)
    }
}

impl FromSpecImpl<usize> for MarkIndex {
    open spec fn obeys_from_spec() -> bool {
        true
    }

    open spec fn from_spec(v: usize) -> Self {
        MarkIndex(v)
    }
}

/// Index of an attribute inside an attribute container.
#[derive(Clone, Copy, PartialEq, Eq, Structural, Hash, Debug)]
pub struct AttributeIndex(pub usize);

impl AttributeIndex {
    /// `true` for the null attribute index (`usize::MAX`).
    pub open spec fn is_null(self) -> bool {
        self.0 == usize::MAX
    }

    /// The null attribute index, which stands for "no attribute".
    pub fn null() -> (r: Self)
        ensures
            r.0 == usize::MAX,
            r.is_null(),
    {
        AttributeIndex(usize::MAX)
    }

    /// The underlying integer.
    pub fn value(&self) -> (r: usize)
        ensures
            r == self.0,
    {
        self.0
    }
}

impl From<usize> for AttributeIndex {
    fn from(source: usize) -> (r: Self) {
        AttributeIndex(source)
    }
}

impl FromSpecImpl<usize> for AttributeIndex {
    open spec fn obeys_from_spec() -> bool {
        true
    }

    open spec fn from_spec(v: usize) -> Self {
        AttributeIndex(v)
    }
}

} // verus!
