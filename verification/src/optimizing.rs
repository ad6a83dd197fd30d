//! In which order the atoms of a rule are joined.
pub mod covering;
pub mod growing;
pub mod joining;
pub mod join_tree;
pub mod measuring;
pub mod optimizer;
pub mod drawing;
