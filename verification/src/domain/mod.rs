//! Core models and policies.
//!
//! The domain knows nothing about files, command lines, PDF syntax or the
//! container's byte formats. Parsers and renderers meet in these models.
pub mod attachment;
pub mod coverage;
pub mod document;
pub mod output;
pub mod page;
pub mod policy;
pub mod rendering;
pub mod upright;

pub use attachment::{Attachment, Kind};
pub use coverage::Coverage;
pub use document::{DisplayMember, DisplayPage, Document, Rebuilt, SUPPORTED_GENERATIONS};
pub use output::Language;
pub use page::{Page, PageData, Role};
pub use policy::Verdict;
pub use rendering::{Fill, Image, Metafile, Text};
