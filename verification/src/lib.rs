//! Extraction of structured documentation from a free-form text block.
//!
//! The library splits a documentation comment into normalized lines,
//! walks them with indentation-aware cursors, and classifies the blocks
//! it finds into a plain-text body, argument defaults, per-argument
//! descriptions, and named presets of `argument=value` settings.
#![verifier::loop_isolation(false)]

pub mod docstring;
pub mod protect;
pub mod strutil;
pub mod text;
