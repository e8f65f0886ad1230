//! Sentence mixing: cutting new sentences out of recorded ones.
//!
//! - [`corpus`]: the index over immutable sources. What the aligner found is
//!   checked, and words, phones and diphones are derived from it.
//! - [`edl`]: the edit, a list of spans and transforms, compiled to a playlist
//!   for previews and to ffmpeg invocations for the final file.
//! - [`ingest`], [`render`], [`mpv`]: what the programs around the index are
//!   asked, and what their answers mean.
//! - [`tui`]: the terminal program's state, from events to what is asked for
//!   and shown.
//!
//! Times are whole nanoseconds. A number that a file may give in any form, a
//! [`number::Real`] or, where it is compared more closely, a [`fine::Fine`], may
//! also be no number or unbounded.
pub mod cli;
pub mod corpus;
pub mod edl;
pub mod fine;
pub mod hash;
pub mod ingest;
pub mod json;
pub mod mpv;
pub mod number;
pub mod parse;
pub mod path;
pub mod render;
pub mod span;
pub mod text;
pub mod tui;
