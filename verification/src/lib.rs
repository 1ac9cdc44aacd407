//! Multidimensional array slices and views.
//!
//! A [`slice::Slice`] holds a block of elements and a [`mapping::Mapping`]
//! that arranges them along axes. Indexing, splitting, permuting and
//! reshaping give [`view::ArrayView`]s and [`view_mut::ArrayViewMut`]s, which
//! borrow the elements and copy none; [`expr`] traverses them lazily.
//!
//! Every operation is stated over the mathematical model of its arguments
//! ([`model::ArrayModel`], [`geometry::MappingView`]), and [`laws`] collects
//! what holds of all arrays.
pub mod broadcast;
pub mod diagonal;
pub mod dim;
pub mod exclusive;
pub mod expr;
pub mod geometry;
pub mod index;
pub mod lanes;
pub mod laws;
pub mod layout;
pub mod mapping;
pub mod model;
pub mod regroup;
pub mod reshape;
pub mod select;
pub mod shape;
pub mod slice;
pub mod sums;
pub mod transform;
pub mod view;
pub mod view_mut;
