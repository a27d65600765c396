//! A two-dimensional spatial index over integer coordinates: items are
//! stored under stable handles in a side map, while an adaptive quadtree
//! holds only the handles and answers radius queries with region pruning.

use vstd::prelude::*;

mod geometry;
mod node;
mod index;

pub use geometry::Pos;
pub use node::{region_edges, split_bound, Segment};
pub use index::{Position, QuadTree, QuadTreeInsertError};
