//! Iterators over region ranges.
//!
//! - [`range::Iter`] iterates the regions of one memblock type that are not
//!   covered by another (e.g. `memory - reserved`).
//! - [`pfn::Iter`] iterates `memory` regions as page frame number ranges.
//!
//! Both implement [`DoubleEndedIterator`], so reverse iteration is obtained
//! with [`Iterator::rev`] (e.g. for top-down allocation).
pub mod pfn;
pub mod range;
