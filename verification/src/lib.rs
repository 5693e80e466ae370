//! A compiler for textual rhythm-game charts: line classification with a
//! small conditional-compilation interpreter, grid decoding and position
//! normalization, channel-to-lane note generation with long-note pairing,
//! and a tempo/stop timeline sweep that stamps every note with an exact
//! time in seconds.

pub mod chart;
pub mod keysounds;
pub mod lines;
pub mod notes;
pub mod parse;
pub mod rat;
pub mod timing;
