//! Rows of tuples, and how they are read and written.
pub mod config;
pub mod epoch;
pub mod inspect;
pub mod interner;
pub mod lines;
pub mod numbering;
pub mod reader;
pub mod row;
pub mod semiring;
