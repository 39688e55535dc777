//! A small PDF writer, just enough to wrap recovered page images.
pub mod assembly;
pub mod compose;
pub mod content;
pub mod embed;
pub mod file;
pub mod fonts;
pub mod images;
pub mod layer;
pub mod pages;
pub mod pictures;
pub mod sheets;
pub mod stack;
pub mod subset;
pub mod tables;
pub mod words;
pub mod writer;

pub use crate::domain::output::Language as Lang;
pub use assembly::{Assembly, Missing, Options, Outcome, Report, A4, LETTER};
pub use writer::Writer;
