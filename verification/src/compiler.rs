//! From programs made of blocks to rules and facts.
pub mod asking;
pub mod complete;
pub mod emit;
pub mod keeping;
pub mod naming;
pub mod outputs;
pub mod printing;
pub mod resolving;
pub mod showing;
pub mod stating;
pub mod string_table;
pub mod telling;
pub mod translate;

pub use crate::compiler::emit::{emit_datalog, write_facts};
pub use crate::compiler::naming::to_datalog_var;
pub use crate::compiler::outputs::{decode_csv_line, decode_value, OutputInfo};
pub use crate::compiler::string_table::StringTable;
pub use crate::compiler::translate::{compile, make_rel_decl, make_rule, CompileResult};
