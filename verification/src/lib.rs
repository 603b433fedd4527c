//! A pseudo-3D road renderer in fixed-point arithmetic.
//!
//! A track is a sequence of segments of constant curvature. From a position
//! on the track, [`RoadRenderer::render`] draws the road ahead row by row,
//! from the bottom of the screen up, through a [`Painter`]: the road itself,
//! its shoulders, and the sky over what is left. Every pixel of the screen
//! is plotted exactly once per frame.
//!
//! The modules, leaves first:
//! - [`fixed`]: two's complement arithmetic on `i32` and the integer square root;
//! - [`track`]: segments, and the segment that a distance falls in;
//! - [`painter`]: the pixel surface that the renderer draws through;
//! - [`canvas`]: the model of a frame in progress, and what it means that
//!   the visibility records and the plotted pixels agree;
//! - [`projector`]: how the road moves in world space along a segment, and
//!   where a point of the track lands on the screen;
//! - [`raster`]: which depth a screen row shows, which columns the road
//!   covers there, and what drawing a row does to the frame;
//! - [`frame`]: a whole frame, and the proof that it covers the screen
//!   exactly once;
//! - [`brush`]: plotting runs of pixels in step with the model;
//! - [`renderer`]: the renderer itself.
use vstd::prelude::*;

pub mod brush;
pub mod canvas;
pub mod fixed;
pub mod frame;
pub mod painter;
pub mod projector;
pub mod raster;
pub mod renderer;
pub mod track;

pub use canvas::LineVisibility;
pub use fixed::FP_POS;
pub use painter::Painter;
pub use renderer::RoadRenderer;
pub use track::{Segment, SideInclination};
