//! A slicer core for 3-D printing: cuts a closed triangular mesh with a stack
//! of horizontal planes and stitches the cuts into closed polygonal contours.
//!
//! Coordinates are fixed-point integers: one model unit is `UNIT` sub-units
//! (1e6), so one sub-unit is a millionth of a model unit.  The on-plane
//! tolerance and the map-key grid of the slicing pipeline are exact integer
//! quantities on that lattice, which is what makes the pipeline provable.

mod cli;
mod contour;
mod geometry;
mod laws;
mod mesh;
mod segment_map;
mod slicer;
mod stl;

pub use cli::Args;
pub use cli::Commands;
pub use cli::SvgArgs;
pub use cli::SvgCommand;
pub use contour::ClosedPath;
pub use contour::Contour;
pub use geometry::COORD_LIMIT;
pub use geometry::GRID;
pub use geometry::PLANE_EPS;
pub use geometry::POINT_LIMIT;
pub use geometry::Triangle;
pub use geometry::UNIT;
pub use geometry::near;
pub use geometry::quantize;
pub use geometry::Vector2;
pub use geometry::Vector3;
pub use mesh::Facet;
pub use mesh::VertexIndex;
pub use segment_map::SegmentMap;
pub use slicer::SlicedMesh;
pub use slicer::SlicerConfig;
pub use slicer::SlicerError;
pub use slicer::compute_constant_layer_range;
pub use slicer::compute_min_max;
pub use slicer::intersect;
pub use slicer::segment_for_layer;
pub use slicer::slice_mesh;
pub use stl::StlError;
pub use stl::StlFile;
pub use stl::parse_stl;
