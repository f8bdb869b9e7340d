//! Free-form lasso selection over a captured RGBA frame: polygon membership,
//! scanline mask rasterization, preview compositing and masked cropping.

pub mod geometry;
pub mod hit_test;
pub mod laws;
pub mod raster;
pub mod rasterize;
pub mod session;
pub mod spans;

pub use geometry::{crossing, Point};
pub use hit_test::point_in_polygon;
pub use raster::{apply_mask, compose_frame, crop_selection, Raster, SelectionError};
pub use rasterize::{compute_mask, ray_cast_mask, selection_mask, Rasterizer};
pub use session::{Session, THROTTLE_MS};
