//! The output formats.
pub mod drawing;
pub mod html;
pub mod mask_laws;
pub mod masks;
pub mod pdf;
pub mod plan;
pub mod sheets;
