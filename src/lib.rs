//! Orbit statistics and raster assembly for bifurcation and escape-time images.
//!
//! The library holds the exact, integer side of the computation: orbits of an
//! arbitrary map, fixed-bucket histograms with a running maximum, the sup-norm
//! distance between normalised histograms, grayscale shading, image
//! transposition and the dispatch of independent units of work.
pub mod histograms;
pub mod orbit;
pub mod raster;
pub mod dispatch;

pub use histograms::{HistFormat, HistValue, HistogramR1, MetricSpace, Ratio};
pub use orbit::{first_escape, Orbit};
pub use raster::{transpose_image, Rgb, RgbImage};
pub use dispatch::{column_pixels, map_indices, render_columns, render_grid};
