//! Reading of TIFF files, with the GeoTIFF key directory, from their bytes.
pub mod bytes;
pub mod lowlevel;
pub mod reader;
pub mod image;
pub mod keys;
pub mod tiff;

pub use crate::tiff::TIFF;
pub use crate::keys::{GeoKeyDirectory, GeoKeyEntry};
