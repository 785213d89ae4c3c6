//! A spatial index for points in `N`-dimensional space.
//!
//! A [`QuadTree`] files values by their [`point::Point`] inside a
//! [`region::Region`], an axis-aligned box made of one half-open
//! [`interval::Interval`] per axis, and answers queries without looking at
//! every value: a [`query::Query`] names a bounding region, by which whole
//! subtrees are left out, and a predicate, which decides on each point that
//! is visited. A region is its own query; a [`query::DistanceQuery`] asks
//! for the points of a ball.
//!
//! Coordinates are signed 64-bit integers. Every function of the library
//! is verified against its contract; the calls into `itertools` and `rand`
//! are the only parts that are taken on trust.

pub mod error;
pub mod interval;
pub mod point;
pub mod product;
pub mod quadtree;
pub mod query;
pub mod region;
pub mod seqs;

pub use crate::error::QuadTreeError;
pub use crate::quadtree::{QuadTree, Storable};
