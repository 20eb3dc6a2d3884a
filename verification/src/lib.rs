//! The decisions behind cutting a product out of its background, on plain
//! integers, with what each of them returns stated and proved.

pub mod cutout;
pub mod error;
pub mod geometry;
pub mod laws;
pub mod raster;
pub mod sorting;
pub mod sums;
pub mod tally;
pub mod warning;
