//! A static spatial index over a fixed set of 2D points with integer
//! coordinates, laid out as an implicit KD-tree over two parallel arrays.
//!
//! The index is built once and then answers box and radius queries,
//! reporting each match by the position that the point had in the input.
//!
//! - [`layout`]: the model of the two arrays and of their reorderings;
//! - [`roots`], [`sample`], [`select`]: partial selection, with the sampling
//!   step for long ranges and the integer roots that it computes with;
//! - [`tree`]: the partition invariant and the construction of the layout;
//! - [`query`]: the regions, the order of the traversal, and the proof that
//!   the traversal finds what a linear scan finds;
//! - [`kdbush`]: the index itself;
//! - [`theorems`]: what holds of every built index.

pub mod kdbush;
pub mod layout;
pub mod query;
pub mod roots;
pub mod sample;
pub mod select;
pub mod theorems;
pub mod tree;

pub use crate::kdbush::{BuildError, KDBush};
pub use crate::layout::Point;
