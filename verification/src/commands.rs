//! What the command line tool prints, counts and names its files by. Reading,
//! writing and printing are done around it.
pub mod csv;
pub mod inventory;
pub mod listing;
pub mod names;
pub mod streams;
pub mod totals;

pub use csv::csv_field;
pub use names::Namer;
