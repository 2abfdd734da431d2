//! Dominant-color palette extraction with colorgram's integer HSL derivation.
//!
//! Pixels are grouped into 4096 buckets keyed by the top two bits of their
//! luminance, hue and lightness; the most populated buckets, averaged, form
//! the palette.
pub mod color;
pub mod decode;
pub mod palette;
pub mod rank;

pub use color::{rgb_to_hsl, Hsl, Rgb};
pub use palette::{extract, palette_from_rgb8, Color, ExtractError};
pub use rank::rank_buckets;
