//! Which rules depend on which, and in which order they are evaluated.
pub mod components;
pub mod dependencies;
pub mod graph;
pub mod stratification;
