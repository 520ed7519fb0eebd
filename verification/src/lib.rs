//! K-means color segmentation of a raster image in RGB space.
//!
//! The engine owns a pixel grid, a list of cluster centroid colors, and a
//! per-pixel assignment grid. Each call to `iteration` assigns every pixel to
//! its nearest centroid (ties broken toward the lowest centroid index),
//! recomputes every centroid as the smoothed mean of its assigned pixels, and
//! reports how many assignments changed; zero changes signals convergence.
//! Renderers paint each pixel with its cluster's mean color, or as a
//! min/max-thresholded grayscale silhouette.

mod color;
mod engine;
mod range_map;
mod raster;

pub use engine::KMeansSegmentation;

pub use range_map::map_range;
pub use range_map::MapRangeError;

pub use color::cdist;
pub use color::cdist2;
pub use color::Color;
pub use color::Rgba;
pub use raster::Image;
pub use raster::RenderedImage;
