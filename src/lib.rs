//! Layered tile-grid engine: a layered grid store, a pan-and-zoom viewport,
//! bitmap-driven grid initialization and the geometric queries (line
//! rasterization, radius enumeration, flood fill) that drive play and drawing.
pub mod bitmap;
pub mod cell;
pub mod color;
pub mod phase;
pub mod tile;
pub mod viewport;
