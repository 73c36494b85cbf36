//! Conflict markers: rendering a multi-way merge conflict as editable text
//! and reading the edited text back into merge hunks.

pub mod backend;
pub mod describe;
pub mod hunk_reader;
pub mod hunks;
pub mod lines;
pub mod markers;
pub mod materialize;
pub mod parse;
pub mod render;
pub mod round_trip;
pub mod update;
