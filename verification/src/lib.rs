//! The rendered-line buffer of a terminal log viewer, with its search and
//! viewport engine.
//!
//! A buffer holds wrapped text lines of varying height in ingestion order. It
//! answers literal substring queries, records which rows of each line hold a
//! match, and places matches inside a bottom-anchored scroll window.

pub mod line;
pub mod ui;
