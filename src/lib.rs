//! A retained-mode layout tree: elements with pixel, fractional or automatic
//! geometry, resolved against a viewport and flattened into draw records for
//! a renderer.
//!
//! Lengths are whole pixels (`i64`); fractions are parts of `PERC_ONE`
//! (`10000` is the whole); color channels are bit patterns of IEEE-754
//! singles, which pass through untouched.

pub mod background;
pub mod buffer;
pub mod color;
pub mod coord;
pub mod element;
pub mod graph;
pub mod laws;
pub mod position;
