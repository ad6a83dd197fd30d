//! Planning and evaluation core of a stratified Datalog engine.
#![allow(unused_imports)]

pub mod catalog;
pub mod compiler;
pub mod debugging;
pub mod executing;
pub mod hcl_types;
pub mod lists;
pub mod optimizing;
pub mod ordered;
pub mod parsing;
pub mod planning;
pub mod reading;
pub mod reference;
pub mod sorted;
pub mod strata;
pub mod text;
