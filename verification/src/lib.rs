//! An unbounded, zoomable 2D drawing surface with bounded memory:
//! a lazily materialized quadtree spatial index held in an arena of
//! integer handles, a fixed-size toroidal viewport window that pages a
//! same-depth slice of the tree in and out as the user pans and zooms,
//! a stroke router that places each line segment at the shallowest node
//! whose unit square contains it, and a structural persistence codec.

pub mod geometry;
pub mod structure;
pub mod routing;
pub mod circular_buffer;
pub mod codec;
pub mod laws;
