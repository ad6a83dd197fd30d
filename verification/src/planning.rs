//! From rules to transformations of collections.
pub mod arguments;
pub mod arithmetic;
pub mod collections;
pub mod compare;
pub mod constraints;
pub mod flow;
pub mod transformations;
pub mod steps;
pub mod rule;
pub mod legible;
pub mod linking;
pub mod reading_flows;
pub mod sharing;
pub mod strata;
pub mod plannable;
pub mod program;
pub mod drawing;
pub mod levels;
pub mod tracing;
pub mod possible;
