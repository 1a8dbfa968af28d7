//! A planar sweep over the boundary edges of polygons, for boolean
//! operations on polygon sets.
//!
//! The sweep finds where edges cross, touch or lie on each other, cuts
//! them there, joins pieces that coincide into chains, and reports every
//! piece as it enters and leaves, in sweep order. A caller decides from
//! the reports which pieces bound the result of its operation.
//!
//! Coordinates are points of an integer grid, and every predicate is
//! exact. A crossing that falls between grid points is rounded to one;
//! the finer the grid against the size of the input, the less that
//! matters. Where rounding has put the pieces in an order that the sweep
//! cannot use, the sweep fails with an [`error::Error`] instead of going
//! on.
pub mod active;
pub mod error;
pub mod events;
pub mod geom;
pub mod laws;
pub mod measure;
pub mod model;
pub mod point;
pub mod segment;
pub mod sweep;
