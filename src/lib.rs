//! Nearest-coordinate lookup of stellar evolution tracks.
//!
//! Tracks are keyed by initial composition, initial mass and age. Every
//! physical quantity is held as a fixed-point integer: a count of millionths
//! of the unit the track files use (solar masses, years, dex).

pub mod error;
pub mod nearest;
pub mod metallicity;
pub mod text;
pub mod number;
pub mod line;
pub mod trajectory;
pub mod data;
pub mod getters;
pub mod codec;
pub mod paths;
