//! Datalog programs: declarations, rules and how they are read and written.
pub mod arithmetic;
pub mod aggregation;
pub mod compare;
pub mod decl;
pub mod grammar;
pub mod head;
pub mod parser;
pub mod rule;
pub mod wording;
