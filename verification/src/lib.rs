//! Reads the container structure of DocuWorks (`.xdw`) files and salvages
//! whatever can be recovered without the vendor's software.
//!
//! The library is verified: what each function returns is stated in its
//! contract and proved. It never touches a file, a clock or a terminal; the
//! program around it reads bytes, hands them over and writes bytes out.
pub mod adapters;
pub mod application;
pub mod binary32;
pub mod commands;
pub mod domain;
pub mod error;
pub mod infrastructure;
pub mod rounding;
pub mod text;

pub use error::Error;
