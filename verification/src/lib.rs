//! Voronoi diagrams on top of qhull: the command line handed to qhull, and
//! the bookkeeping that turns qhull's facet, vertex and ridge lists into
//! the `(vertices, ridge_points, ridge_vertices, regions, point_region)`
//! tuple.
use vstd::prelude::*;

pub mod error;
pub mod iterators;
pub mod options;
pub mod point_region;
pub mod text;
pub mod voronoi;

pub use error::{QhullError, InvalidPoints};
pub use iterators::{FacetIter, SetIter, VecBuffer, VertexIter};
pub use options::{QhullMode, QhullOption};
pub use point_region::PointRegion;
pub use text::trim_line;
pub use voronoi::QHull;

verus! {
} // verus!
