//! A validated-path registry for an image viewer.
//!
//! The library keeps a process-wide, append-only registry of image file
//! paths.  Candidates supplied at startup are filtered by an existence
//! probe (reported by the caller) and by a supported-extension check
//! before they are appended; the presentation layer may also read the
//! registry or append to it directly, without validation.

pub mod ingest;
pub mod paths;
pub mod state;
