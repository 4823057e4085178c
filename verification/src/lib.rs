//! A snow-globe scene on a tile grid: rasterisation primitives that write
//! into a caller-owned RGBA frame, an occupancy grid of solid cells, and the
//! particle rules that let snow fall, settle and slump.
//!
//! Grid coordinates count tiles from the bottom-left corner of the canvas;
//! the frame is row-major from the top-left, four bytes per pixel.

pub mod canvas;
pub mod cell;
mod chance;
pub mod draw;
pub mod fill;
pub mod geometry;
pub mod occupancy;
pub mod particle;
pub mod scenery;
pub mod shapes;
pub mod simulation;
pub mod sprite;
