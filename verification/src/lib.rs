//! Generalized maps (G-maps): darts linked by alpha involutions describing
//! n-dimensional cellular subdivisions, with marks, attribute bookkeeping and
//! topological operations.

pub mod index;
pub mod index_allocator;
pub mod orbits;
pub mod attribute;
pub mod dart;
pub mod gmap;
pub mod iterators;
pub mod inspect;
pub mod output;

pub use crate::index::{DartIndex, MarkIndex, AttributeIndex};
