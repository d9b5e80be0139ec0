//! A collision-detection and shape-arena library.
//!
//! The crate provides a generational-index object pool ([`generation`]),
//! integer planar geometry for separating-axis collision tests ([`geom`]),
//! axis-aligned and compound shapes ([`shape`]), and a [`space::Space`] that
//! owns a shape arena and answers all-pairs collision queries with
//! minimum-translation vectors.

pub mod generation;
pub mod geom;
pub mod shape;
pub mod space;
