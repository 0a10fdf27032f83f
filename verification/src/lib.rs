//! A verified codec for the portable anymap image family (PBM, PGM, PPM),
//! covering validated image construction, the ASCII and binary wire formats
//! in both directions, and a few in-place pixel transforms.

pub mod ascii;
pub mod binary;
pub mod bitpack;
pub mod decimal;
pub mod image;
pub mod manipulation;

pub use image::AnymapError;
pub use image::AnymapFormat;
pub use image::AnymapImage;
pub use image::ImageView;
