//! Chapter extraction from Blu-ray playlist files.
//!
//! The `reader` module walks the playlist's binary layout and yields the
//! play-item and mark tables; the `timeline` module turns those tables into
//! per-segment chapter lists, optionally merged across segments or clipped
//! to a sub-range.  `time` and `fmt` carry the tick arithmetic and the
//! canonical `HH:MM:SS.fraction` text form.

pub mod fmt;
pub mod laws;
pub mod reader;
pub mod time;
pub mod timeline;

