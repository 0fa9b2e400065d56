//! Codec for the STI sprite container format: a 64-byte flag-conditional
//! header, an optional 256-colour palette, one 16-bit RGB image or a sequence
//! of palette-indexed images (optionally run-length compressed), and trailing
//! animation records.
//!
//! The crate decodes raw bytes into an in-memory [`types::StiFile`], encodes a
//! model back to the exact on-disk layout (recomputing all offsets and sizes),
//! and offers an editable snapshot, structural edit operations and a bounded
//! parse cache around that core.

pub mod cache;
pub mod edit;
pub mod etrle;
pub mod info;
pub mod parser;
pub mod types;
