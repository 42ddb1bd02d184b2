//! The result of building a package.

use vstd::prelude::*;

use crate::compiler::module_output::MigrationRecord;
use crate::digest::Digest;
use crate::module_interface::InterfaceSummary;
use crate::ordmap::OrdMap;

verus! {

/// What building one module produced.
#[derive(Debug)]
pub struct ModuleOutput {
    /// The modules it depends on, sorted.
    pub deps: Vec<String>,
    /// The objects it produced, sorted.
    pub objects: Vec<Digest>,
    /// The names it binds.
    pub names: OrdMap<String, Digest>,
    /// The canonical signatures of its names.
    pub signatures: OrdMap<String, String>,
    /// The incremental-cache key.
    pub cache_key: [u8; 32],
    /// The bindings of other modules that it was linked against.
    pub consumed_links: OrdMap<String, Digest>,
    /// Its state migrations.
    pub migrations: Vec<MigrationRecord>,
    /// Its lambdas, with the name of the function each stands in.
    pub lambda_parents: OrdMap<Digest, String>,
    /// The entry point, if it has one.
    pub entry_point: Option<Digest>,
    /// Its pre-link form, if it has one.
    pub prelink: Option<Digest>,
}

/// What building a package produced.
#[derive(Debug)]
pub struct BuildResult {
    /// The package.
    pub package_name: String,
    /// The interface of every module.
    pub interfaces: OrdMap<String, InterfaceSummary>,
    /// The output of every module that produced one.
    pub module_outputs: OrdMap<String, ModuleOutput>,
    /// The hash of the dispatch surface.
    pub dispatch_surface_hash: Digest,
    /// The hash of the native contract.
    pub natives_contract_hash: Digest,
    /// The cache key of the builtin modules.
    pub core_cache_key: [u8; 32],
}

} // verus!
