//! Structural segmentation of Markdown documents into bounded-size,
//! semantically coherent chunks for retrieval pipelines.
//!
//! The crate walks a document line by line, tracking header, list and
//! code-fence structure, and emits either a two-level hierarchy of parent
//! and child chunks or an alternate multi-scale set of overlapping chunks.
//! Supporting routines provide unicode-safe truncation and embedding-input
//! sanitization. All segmentation is total over any text input and is
//! verified against functional models of the scans.

pub mod hierarchy;
pub mod multiscale;
pub mod retry;
pub mod sanitize;
pub mod smart;
pub mod summary;
pub mod text;
pub mod truncate;
pub mod window;
