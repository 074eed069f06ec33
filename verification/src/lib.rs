//! Luminance-gated pixel sorting.
//!
//! The library holds the verified core of a video pixel-sorting pipeline:
//! the segment-sort transform that reorders pixels along scan lines, the
//! parsers for the metadata probe's text output, and the state machines of
//! the concurrent stages (extraction, ordering gate, encoding sink,
//! cancellation). Process handling, channels and task scheduling live in
//! the surrounding application.

pub mod frame;
pub mod pipeline;
pub mod pixel;
pub mod probe;
pub mod transform;
