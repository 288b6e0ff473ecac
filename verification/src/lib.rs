//! Flattens a multi-file source project — an entry file plus an internal
//! library directory of helper modules — into one self-contained text.
//!
//! The engine parses `use` declarations (nested brace groups and wildcards
//! included), classifies each expanded import path as internal or external,
//! resolves internal paths to module files (including `super`-relative
//! ones), inlines each internal module's body at most once, and reassembles
//! the entry file's inner directives, a deduplicated external-import block
//! in which wildcards subsume the explicit imports they cover, and the
//! inlined body.
//!
//! The sources are handed in as a [`unfold::FileTable`] value, so the whole
//! engine is verified against the model in [`model`]; reading files, the
//! configuration file and the command line stay outside the library.
pub mod config;
pub mod laws;
pub mod model;
pub mod strings;
pub mod unfold;
