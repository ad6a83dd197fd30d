//! What is known of a rule before it is planned.
pub mod arithmetic;
pub mod atoms;
pub mod body;
pub mod compare;
pub mod cores;
pub mod filters;
pub mod finding;
pub mod handing;
pub mod head;
pub mod listing;
pub mod open;
pub mod query;
pub mod reducing;
pub mod rule;
pub mod sideways;
