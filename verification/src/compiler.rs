//! Compilation of checked modules to content-addressed functions.

pub mod assemble;
pub mod canonical;
pub mod capture;
pub mod closures;
pub mod code;
pub mod codegen;
pub mod coherent;
pub mod context;
pub mod declared;
pub mod depending;
pub mod dictionaries;
pub mod dicts;
pub mod entry;
pub mod error;
pub mod execution;
pub mod exports;
pub mod expr;
pub mod forms;
pub mod functions;
pub mod graph;
pub mod handling;
pub mod hash;
pub mod intrinsics;
pub mod invariance;
pub mod items;
pub mod lambdas;
pub mod language;
pub mod linked;
pub mod machine;
pub mod module_output;
pub mod moving;
pub mod patterns;
pub mod places;
pub mod prelink;
pub mod reading;
pub mod rearranging;
pub mod recompiling;
pub mod registering;
pub mod relinking;
pub mod renamed_module;
pub mod renaming;
pub mod repl;
pub mod results;
pub mod sessions;
pub mod replay;
pub mod tables;
