//! Conversion of dense georeferenced raster grids into a sparse,
//! hierarchical hexagonal-cell index.
//!
//! The crate owns four pieces of logic: the bit-level model of
//! hierarchical hexagonal cell identifiers ([`cell`]), the fixed binary
//! record protocol that connects the pipeline stages ([`codec`]), the
//! hierarchical aggregator that merges complete sibling groups upward to
//! a target resolution ([`index`]), and the canonicalisation of a
//! covering query's result ([`tess`]). Geometry, floating-point
//! arithmetic and file handling live outside the library and exchange
//! plain values with it.

pub mod cell;
pub mod codec;
pub mod index;
pub mod options;
pub mod tess;
