//! Use cases and the ports they depend on.
//!
//! This layer coordinates reading, parsing, decoding and the discovery of
//! attachments through abstractions; the concrete parts live in
//! [`crate::infrastructure`].
pub mod ports;
pub mod recovery;
pub mod service;
pub mod verification;

pub use ports::{AttachmentScanner, DocumentParser, DocumentReader, PageDecoder};
pub use recovery::{
    coverage, decode_overlay, decode_page, display_page_is_recoverable, page_is_recoverable,
};
pub use service::{Analysis, DocumentAsset, SalvageService};
pub use verification::{compare, Expectation, Finding, Report};
