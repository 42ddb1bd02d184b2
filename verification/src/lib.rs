//! The front half of the Ambient engine, with its behaviour stated as
//! contracts.

pub mod ast;
pub mod build_result;
pub mod bytecode;
pub mod colors;
pub mod compiler;
pub mod const_eval;
pub mod content_hash;
pub mod core_library;
pub mod digest;
pub mod disk_store;
pub mod dispatch_deps;
pub mod expr_reach;
pub mod expr_walk;
pub mod format;
pub mod fqn;
pub mod holding;
pub mod module_env;
pub mod module_interface;
pub mod module_paths;
pub mod nominal;
pub mod object;
pub mod order;
pub mod ordmap;
pub mod sorting;
pub mod store;
pub mod symbols;
pub mod syntax;
pub mod text;
pub mod text_sort;
pub mod types;
pub mod value;
pub mod wire;
