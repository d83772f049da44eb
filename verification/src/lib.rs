//! Emoji captcha engine: picks a random set of glyphs from a catalog,
//! lays them out on a fixed 550x180 canvas with source-over blending,
//! and encodes the canvas as a PNG.
pub mod bitmap;
pub mod captcha;
pub mod compose;
pub mod rng;
pub mod hexid;
pub mod sample;
