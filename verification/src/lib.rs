//! A terminal screen-animation library.
//!
//! The heart of the crate is the scroll engine in [`scroll`]: it keeps a
//! row-indexed pattern of column offsets where a fixed text token is painted,
//! and advances that pattern by one row per tick. [`render`] composes the
//! ANSI escape-sequence buffer for one frame, [`session`] holds the small
//! per-tick decisions (quit key, viewport fallback), [`slideshow`] holds
//! the frame selection of the image-slideshow mode, and [`textart`] decodes
//! the raster converter's text output. Terminal I/O and process spawning
//! live outside the library, which only ever maps plain values to plain
//! values.

pub mod digits;
pub mod render;
pub mod scroll;
pub mod session;
pub mod slideshow;
pub mod textart;
