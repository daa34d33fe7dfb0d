//! A floating-point pixel canvas and its encoder to the ASCII PPM ("P3") image format.
//!
//! The library is split into the colour value type ([`color`]), a small 3-d vector
//! type ([`vectors`]), the row-major pixel grid ([`canvas`]) and the text encoder
//! ([`ppm`]).

pub mod canvas;
pub mod color;
pub mod ppm;
pub mod vectors;
