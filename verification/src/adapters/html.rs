//! A single self-contained HTML page per document.
//!
//! Everything travels inside the one file: recovered page images as data URLs
//! and any original file found in the container offered for download.
pub mod base64;
pub mod compose;
pub mod layer;
pub mod page;
pub mod sheets;
pub mod svg;
pub mod words;

pub use base64::b64;
pub use page::{HtmlDrawn, Options, Outcome, Report};
pub use words::{blend_attr, esc, hex, stem, CSS};
