//! Fixed-point difference-of-Gaussians filtering for 8-bit RGB rasters.
//!
//! Every quantity that would classically be a real number is held as an
//! integer in a documented fixed-point unit, so that each function has an
//! exact contract: standard deviations in 256ths of a pixel (65536ths where
//! two of them have been multiplied), kernel weights and colour levels in
//! units of `2^-60`.
//!
//! - `color`: pixels, colour vectors and the mapping between them
//! - `kernel`: the Gaussian weight, the radius of a kernel and its table
//! - `raster`: rasters of RGBA pixels and their mathematical content
//! - `sums`: finite sums, in which the blur is specified
//! - `blur`: the Gaussian blur
//! - `dog`: the difference of two rasters and of two blurs
//! - `stack`: rasters stacked into one
//! - `draw`: a disc to mark a point
//! - `dynamic`: rasters to and from `image::DynamicImage`
//! - `error`: why a step refused its input

pub mod blur;
pub mod color;
pub mod dog;
pub mod draw;
pub mod dynamic;
pub mod error;
pub mod kernel;
pub mod raster;
pub mod stack;
pub mod sums;
