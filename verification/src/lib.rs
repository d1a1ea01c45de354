//! The verified core of a ray tracer for scenes made of spheres.
//!
//! - `region`, `buffer`: pixel rectangles, and buffers of four bytes for each
//!   pixel that tiles are rendered into and copied from into the frame.
//! - `group`, `primitive`: the bounding hierarchy, how it is grown as a
//!   pyramid, and the traversal that finds the nearest hit of a ray.
//! - `render`: how an image is cut into tiles, how a tile is filled, and
//!   what a ray adds to its pixel.
//! - `ppm`: the bytes of the image file.
//!
//! The library never looks inside a ray or a surface point. Geometry enters
//! through the two traits in `primitive` and through the functions that
//! callers hand over, and distances are carried as ordered integer keys.

pub mod region;
pub mod buffer;
pub mod ppm;
pub mod primitive;
pub mod render;
pub mod group;
