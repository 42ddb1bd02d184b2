//! What a module sees of the rest of a build.

use vstd::prelude::*;

use crate::ast::EnumDef;
use crate::compiler::context::{
    opt_module, AbilityView, CompiledAbilityInfo, VariantInfo, VariantView,
};
use crate::compiler::hash::key_hashes;
use crate::digest::Digest;
use crate::fqn::{Fqn, FqnView, KeyView, ModuleId, ModuleView, NameKey, NameTable};
use crate::ordmap::OrdMap;

verus! {

/// What the host binds a native function to.
#[derive(Debug, Clone, Copy, PartialEq, Eq)]
pub struct NativeBinding {
    /// The identity of the binding.
    pub uuid: [u8; 16],
    /// The number of parameters.
    pub arity: u8,
}

/// What a [`NativeBinding`] says.
pub struct BindingView {
    /// The identity of the binding.
    pub uuid: Seq<u8>,
    /// The number of parameters.
    pub arity: u8,
}

impl View for NativeBinding {
    type V = BindingView;

    open spec fn view(&self) -> BindingView {
        BindingView { uuid: self.uuid@, arity: self.arity }
    }
}

/// What a module sees of the rest of a build.
#[derive(Debug)]
pub struct ModuleEnv {
    /// The identity of the module, if it has one.
    pub module_id: Option<ModuleId>,
    /// The enums that it imports.
    pub imported_enums: Vec<EnumDef>,
    /// The variants of other modules' enums, by their full names.
    pub foreign_enum_variants: Vec<(Fqn, VariantInfo)>,
    /// The structs of other modules that are values.
    pub foreign_unit_structs: Vec<NameKey>,
    /// The objects of other modules' constants.
    pub foreign_const_hashes: NameTable<Digest>,
    /// The abilities of other modules, by their full names.
    pub foreign_abilities: Vec<(Fqn, CompiledAbilityInfo)>,
    /// What the host binds native functions to, by their names.
    pub extern_natives: OrdMap<String, NativeBinding>,
}

/// What a [`ModuleEnv`] says.
pub struct EnvView {
    /// The identity of the module, if it has one.
    pub module_id: Option<ModuleView>,
    /// The enums that it imports.
    pub imported_enums: Seq<EnumDef>,
    /// The variants of other modules' enums, by their full names.
    pub foreign_enum_variants: Seq<(FqnView, VariantView)>,
    /// The structs of other modules that are values.
    pub foreign_unit_structs: Seq<KeyView>,
    /// The objects of other modules' constants.
    pub foreign_const_hashes: Map<KeyView, Seq<u8>>,
    /// The abilities of other modules, by their full names.
    pub foreign_abilities: Seq<(FqnView, AbilityView)>,
    /// What the host binds native functions to, by their names.
    pub extern_natives: Map<Seq<char>, BindingView>,
}

/// What variants by their full names say.
pub open spec fn variant_entries(s: Seq<(Fqn, VariantInfo)>) -> Seq<(FqnView, VariantView)> {
    Seq::new(s.len(), |i: int| (s[i].0@, s[i].1@))
}

/// What abilities by their full names say.
pub open spec fn ability_entries(s: Seq<(Fqn, CompiledAbilityInfo)>) -> Seq<
    (FqnView, AbilityView),
> {
    Seq::new(s.len(), |i: int| (s[i].0@, s[i].1@))
}

/// What the host binds native functions to, by their names.
pub open spec fn binding_map(m: Map<Seq<char>, NativeBinding>) -> Map<Seq<char>, BindingView> {
    m.map_values(|b: NativeBinding| b@)
}

/// What keys say.
pub open spec fn key_views(s: Seq<NameKey>) -> Seq<KeyView> {
    Seq::new(s.len(), |i: int| s[i]@)
}

impl View for ModuleEnv {
    type V = EnvView;

    open spec fn view(&self) -> EnvView {
        EnvView {
            module_id: opt_module(self.module_id),
            imported_enums: self.imported_enums@,
            foreign_enum_variants: variant_entries(self.foreign_enum_variants@),
            foreign_unit_structs: key_views(self.foreign_unit_structs@),
            foreign_const_hashes: key_hashes(self.foreign_const_hashes@),
            foreign_abilities: ability_entries(self.foreign_abilities@),
            extern_natives: binding_map(self.extern_natives@),
        }
    }
}

/// The view of a module that stands by itself.
pub open spec fn empty_env() -> EnvView {
    EnvView {
        module_id: None,
        imported_enums: seq![],
        foreign_enum_variants: seq![],
        foreign_unit_structs: seq![],
        foreign_const_hashes: Map::empty(),
        foreign_abilities: seq![],
        extern_natives: Map::empty(),
    }
}

impl Default for ModuleEnv {
    /// What a module that stands by itself sees.
    fn default() -> (r: ModuleEnv)
        ensures
            r@ == empty_env(),
    {
        let r = ModuleEnv {
            module_id: None,
            imported_enums: Vec::new(),
            foreign_enum_variants: Vec::new(),
            foreign_unit_structs: Vec::new(),
            foreign_const_hashes: NameTable::new(),
            foreign_abilities: Vec::new(),
            extern_natives: OrdMap::new(),
        };
        assert(r@.imported_enums =~= seq![]);
        assert(r@.foreign_enum_variants =~= seq![]);
        assert(r@.foreign_unit_structs =~= seq![]);
        assert(r@.foreign_const_hashes =~= Map::empty());
        assert(r@.foreign_abilities =~= seq![]);
        assert(r@.extern_natives =~= Map::empty());
        r
    }
}

} // verus!
