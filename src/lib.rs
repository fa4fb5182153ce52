//! Map overlay frames for dashcam footage: a GPS trace is segmented and
//! aligned to an output frame clock, every fix is projected onto the
//! Web-Mercator tile pyramid, and a fixed-size viewport is stitched from the
//! cached tiles around it.
//!
//! Everything in this crate is pure: reading files, fetching tiles, decoding
//! and encoding images are left to the caller, who hands the results back in
//! as plain values.

pub mod text;
pub mod trace;
pub mod timeline;
pub mod projection;
pub mod viewport;
pub mod cache;
pub mod video;
pub mod writer;
