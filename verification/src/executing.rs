//! What the steps of a plan do to rows, and how they are put together.
pub mod acting;
pub mod aggregation;
pub mod answers;
pub mod arg;
pub mod assembly;
pub mod assigning;
pub mod bodies;
pub mod carrying;
pub mod columns;
pub mod compare;
pub mod dataflow;
pub mod deriving;
pub mod evaluating;
pub mod heads;
pub mod jn;
pub mod map;
pub mod meaning;
pub mod names;
pub mod operators;
pub mod order;
pub mod performing;
pub mod plans;
pub mod rewriting;
pub mod running;
pub mod shapes;
pub mod stages;
pub mod staging;
pub mod wiring;
