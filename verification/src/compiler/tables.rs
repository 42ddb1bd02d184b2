//! What the names of a module mean: its own items, and what it sees of the rest
//! of the build.
//!
//! A declaration of the module shadows an imported one of the same name, and of
//! two declarations of one name the later counts.

use vstd::prelude::*;

use crate::ast::{AbilityDef, AbilityMethod, ConstDef, EnumDef, ExternFnDef, FunctionDef, StructDef};
use crate::bytecode::{Constant, ConstantView};
use crate::compiler::assemble::{bound, named, one_hash_each};
use crate::compiler::context::{
    assoc_set, bound_to, full_variant_map, method_views, opt_module, variant_map, AbilityTable,
    AbilityView, CompiledAbilityInfo, CompiledMethodInfo, MethodInfoView, VariantInfo, VariantView,
};
use crate::compiler::dicts::{error_at, internal_at};
use crate::compiler::error::{CompileError, CompileErrorKind, ErrorView, KindView};
use crate::compiler::hash::{
    compute_temporary_hash, key_hashes, named_constants, temporary_hash,
};
use crate::compiler::items::referents;
use crate::const_eval::{literal, literal_value};
use crate::digest::Digest;
use crate::fqn::{Fqn, FqnView, KeyView, ModuleId, ModuleView, NameKey, NameTable};
use crate::module_env::{
    ability_entries, binding_map, key_views, variant_entries, BindingView, NativeBinding,
};
use crate::module_paths::texts;
use crate::object::{object_hash, NativeFunction, NativeView, ObjectView, StoredObject};
use crate::ordmap::OrdMap;
use crate::text::owned;
use crate::wire::{contents, Wire};

verus! {

broadcast use {vstd::string::group_string_axioms, vstd::array::group_array_axioms};

/// The key of one of a module's own items: its identity where the module has
/// one, else its name.
pub open spec fn own_key(id: Option<ModuleView>, name: Seq<char>) -> KeyView {
    match id {
        Some(m) => KeyView::Item(FqnView { module: m, ident: seq![name] }),
        None => KeyView::Bare(name),
    }
}

/// The key of one of a module's own items.
pub fn own_item_key(module_id: &Option<ModuleId>, name: &str) -> (r: NameKey)
    ensures
        r@ == own_key(opt_module(*module_id), name@),
{
    match module_id {
        Some(id) => {
            let mut ident: Vec<String> = Vec::new();
            ident.push(owned(name));
            assert(texts(ident@) =~= seq![name@]);
            NameKey::Item(Fqn::new(id.copy(), ident))
        },
        None => NameKey::Bare(owned(name)),
    }
}

// ── enums ───────────────────────────────────────────────────────────────────

/// Variants by their own names, with the first `k` variants of an enum added.
pub open spec fn with_variants(m: Map<Seq<char>, VariantView>, d: EnumDef, k: nat) -> Map<
    Seq<char>,
    VariantView,
>
    decreases k,
{
    if k == 0 {
        m
    } else {
        with_variants(m, d, (k - 1) as nat).insert(
            d.variants@[k - 1].name@,
            VariantView {
                enum_name: d.name@,
                tag: (k - 1) as u16,
                has_payload: d.variants@[k - 1].payload is Some,
            },
        )
    }
}

/// Variants by their own names, with those of enums added.
pub open spec fn with_enums(m: Map<Seq<char>, VariantView>, ds: Seq<EnumDef>) -> Map<
    Seq<char>,
    VariantView,
>
    decreases ds.len(),
{
    if ds.len() == 0 {
        m
    } else {
        with_variants(with_enums(m, ds.drop_last()), ds.last(), ds.last().variants@.len())
    }
}

/// Add the variants of an enum.
pub fn register_enum_def(enums: &mut OrdMap<String, VariantInfo>, d: &EnumDef)
    ensures
        variant_map(final(enums)@) == with_variants(
            variant_map(old(enums)@),
            *d,
            d.variants@.len(),
        ),
{
    let ghost start = variant_map(enums@);
    let mut k: usize = 0;
    while k < d.variants.len()
        invariant
            k <= d.variants@.len(),
            variant_map(enums@) == with_variants(start, *d, k as nat),
        decreases d.variants@.len() - k,
    {
        let ghost was = variant_map(enums@);
        let v = &d.variants[k];
        let info = VariantInfo {
            enum_name: owned(d.name.as_str()),
            tag: k as u16,
            has_payload: v.payload.is_some(),
        };
        let ghost view = info@;
        enums.insert(owned(v.name.as_str()), info);
        assert(variant_map(enums@) =~= was.insert(v.name@, view));
        k = k + 1;
    }
}

/// Add the variants of imported enums.
pub fn register_imported_enums(enums: &mut OrdMap<String, VariantInfo>, ds: &Vec<EnumDef>)
    ensures
        variant_map(final(enums)@) == with_enums(variant_map(old(enums)@), ds@),
{
    let ghost start = variant_map(enums@);
    let mut i: usize = 0;
    assert(ds@.take(0) =~= seq![]);
    while i < ds.len()
        invariant
            i <= ds@.len(),
            variant_map(enums@) == with_enums(start, ds@.take(i as int)),
        decreases ds@.len() - i,
    {
        assert(ds@.take(i + 1).drop_last() =~= ds@.take(i as int));
        register_enum_def(enums, &ds[i]);
        i = i + 1;
    }
    assert(ds@.take(ds@.len() as int) =~= ds@);
}

/// Add the variants of a module's own enums.
pub fn register_enums(enums: &mut OrdMap<String, VariantInfo>, ds: &Vec<&EnumDef>)
    ensures
        variant_map(final(enums)@) == with_enums(variant_map(old(enums)@), referents(ds@)),
{
    let ghost start = variant_map(enums@);
    let ghost all = referents(ds@);
    let mut i: usize = 0;
    assert(all.take(0) =~= seq![]);
    while i < ds.len()
        invariant
            i <= ds@.len(),
            all == referents(ds@),
            variant_map(enums@) == with_enums(start, all.take(i as int)),
        decreases ds@.len() - i,
    {
        assert(all.take(i + 1).drop_last() =~= all.take(i as int));
        assert(all.take(i + 1).last() == *ds@[i as int]);
        register_enum_def(enums, ds[i]);
        i = i + 1;
    }
    assert(all.take(all.len() as int) =~= all);
}

/// Variants by their full names, with some added.
pub open spec fn with_foreign_variants(
    m: Map<KeyView, VariantView>,
    vs: Seq<(FqnView, VariantView)>,
) -> Map<KeyView, VariantView>
    decreases vs.len(),
{
    if vs.len() == 0 {
        m
    } else {
        with_foreign_variants(m, vs.drop_last()).insert(
            KeyView::Item(vs.last().0),
            vs.last().1,
        )
    }
}

/// Add variants of other modules' enums.
pub fn register_foreign_variants(table: &mut NameTable<VariantInfo>, vs: &Vec<(Fqn, VariantInfo)>)
    ensures
        full_variant_map(final(table)@) == with_foreign_variants(
            full_variant_map(old(table)@),
            variant_entries(vs@),
        ),
{
    let ghost start = full_variant_map(table@);
    let ghost all = variant_entries(vs@);
    let mut i: usize = 0;
    assert(all.take(0) =~= seq![]);
    while i < vs.len()
        invariant
            i <= vs@.len(),
            all == variant_entries(vs@),
            full_variant_map(table@) == with_foreign_variants(start, all.take(i as int)),
        decreases vs@.len() - i,
    {
        assert(all.take(i + 1).drop_last() =~= all.take(i as int));
        let ghost was = full_variant_map(table@);
        table.insert(NameKey::Item(vs[i].0.copy()), vs[i].1.copy());
        assert(full_variant_map(table@) =~= was.insert(
            KeyView::Item(all[i as int].0),
            all[i as int].1,
        ));
        i = i + 1;
    }
    assert(all.take(all.len() as int) =~= all);
}

// ── structs ─────────────────────────────────────────────────────────────────

/// Keys with some added.
pub open spec fn with_keys(s: Set<KeyView>, keys: Seq<KeyView>) -> Set<KeyView>
    decreases keys.len(),
{
    if keys.len() == 0 {
        s
    } else {
        with_keys(s, keys.drop_last()).insert(keys.last())
    }
}

/// Keys with those of the structs added that are values.
pub open spec fn with_unit_structs(
    s: Set<KeyView>,
    id: Option<ModuleView>,
    ds: Seq<StructDef>,
) -> Set<KeyView>
    decreases ds.len(),
{
    if ds.len() == 0 {
        s
    } else {
        let before = with_unit_structs(s, id, ds.drop_last());
        if ds.last().fields is None {
            before.insert(own_key(id, ds.last().name@))
        } else {
            before
        }
    }
}

/// Add structs of other modules that are values.
pub fn register_imported_unit_structs(table: &mut NameTable<()>, keys: &Vec<NameKey>)
    ensures
        final(table)@.dom() == with_keys(old(table)@.dom(), key_views(keys@)),
{
    let ghost start = table@.dom();
    let ghost all = key_views(keys@);
    let mut i: usize = 0;
    assert(all.take(0) =~= seq![]);
    while i < keys.len()
        invariant
            i <= keys@.len(),
            all == key_views(keys@),
            table@.dom() == with_keys(start, all.take(i as int)),
        decreases keys@.len() - i,
    {
        assert(all.take(i + 1).drop_last() =~= all.take(i as int));
        let ghost was = table@.dom();
        table.insert(keys[i].copy(), ());
        assert(table@.dom() =~= was.insert(all[i as int]));
        i = i + 1;
    }
    assert(all.take(all.len() as int) =~= all);
}

/// Add a module's own structs that are values.
pub fn register_unit_structs(
    table: &mut NameTable<()>,
    module_id: &Option<ModuleId>,
    ds: &Vec<&StructDef>,
)
    ensures
        final(table)@.dom() == with_unit_structs(
            old(table)@.dom(),
            opt_module(*module_id),
            referents(ds@),
        ),
{
    let ghost start = table@.dom();
    let ghost id = opt_module(*module_id);
    let ghost all = referents(ds@);
    let mut i: usize = 0;
    assert(all.take(0) =~= seq![]);
    while i < ds.len()
        invariant
            i <= ds@.len(),
            all == referents(ds@),
            id == opt_module(*module_id),
            table@.dom() == with_unit_structs(start, id, all.take(i as int)),
        decreases ds@.len() - i,
    {
        assert(all.take(i + 1).drop_last() =~= all.take(i as int));
        assert(all.take(i + 1).last() == *ds@[i as int]);
        let ghost was = table@.dom();
        if ds[i].is_unit_value() {
            table.insert(own_item_key(module_id, ds[i].name.as_str()), ());
            assert(table@.dom() =~= was.insert(own_key(id, all[i as int].name@)));
        }
        i = i + 1;
    }
    assert(all.take(all.len() as int) =~= all);
}

// ── constants ───────────────────────────────────────────────────────────────

/// The keys and values of the constants whose initializer is a literal.
pub open spec fn const_values(id: Option<ModuleView>, ds: Seq<ConstDef>) -> Seq<
    (KeyView, ConstantView),
>
    decreases ds.len(),
{
    if ds.len() == 0 {
        seq![]
    } else {
        let before = const_values(id, ds.drop_last());
        match literal(ds.last().value) {
            Some(v) => before.push((own_key(id, ds.last().name@), v)),
            None => before,
        }
    }
}

/// The keys and values of the constants whose initializer is a literal.
pub fn const_values_of(module_id: &Option<ModuleId>, ds: &Vec<&ConstDef>) -> (r: Vec<
    (NameKey, Constant),
>)
    ensures
        named_constants(r@) == const_values(
            opt_module(*module_id),
            referents(ds@),
        ),
{
    let ghost id = opt_module(*module_id);
    let ghost all = referents(ds@);
    let mut r: Vec<(NameKey, Constant)> = Vec::new();
    let mut i: usize = 0;
    assert(all.take(0) =~= seq![]);
    assert(named_constants(r@) =~= seq![]);
    while i < ds.len()
        invariant
            i <= ds@.len(),
            all == referents(ds@),
            id == opt_module(*module_id),
            named_constants(r@) == const_values(id, all.take(i as int)),
        decreases ds@.len() - i,
    {
        assert(all.take(i + 1).drop_last() =~= all.take(i as int));
        assert(all.take(i + 1).last() == *ds@[i as int]);
        let ghost was = named_constants(r@);
        if let Some(v) = literal_value(&ds[i].value) {
            let ghost view = v@;
            r.push((own_item_key(module_id, ds[i].name.as_str()), v));
            assert(named_constants(r@) =~= was.push((own_key(id, all[i as int].name@), view)));
        }
        i = i + 1;
    }
    assert(all.take(all.len() as int) =~= all);
    r
}

/// The objects that the names of constants mean.
pub open spec fn const_names(
    id: Option<ModuleView>,
    ds: Seq<ConstDef>,
    hashes: Map<KeyView, Seq<u8>>,
) -> Map<Seq<char>, Seq<u8>>
    decreases ds.len(),
{
    if ds.len() == 0 {
        Map::empty()
    } else {
        let before = const_names(id, ds.drop_last(), hashes);
        match bound_to(hashes, own_key(id, ds.last().name@)) {
            Some(h) => before.insert(ds.last().name@, h),
            None => before,
        }
    }
}

/// The objects that the names of constants mean.
pub fn const_names_of(
    module_id: &Option<ModuleId>,
    ds: &Vec<&ConstDef>,
    hashes: &NameTable<Digest>,
) -> (r: Vec<(String, Digest)>)
    ensures
        bound(named(r@)) == const_names(
            opt_module(*module_id),
            referents(ds@),
            key_hashes(hashes@),
        ),
{
    let ghost id = opt_module(*module_id);
    let ghost hs = key_hashes(hashes@);
    let ghost all = referents(ds@);
    let mut r: Vec<(String, Digest)> = Vec::new();
    let mut i: usize = 0;
    assert(all.take(0) =~= seq![]);
    assert(named(r@) =~= seq![]);
    while i < ds.len()
        invariant
            i <= ds@.len(),
            all == referents(ds@),
            id == opt_module(*module_id),
            hs == key_hashes(hashes@),
            bound(named(r@)) == const_names(id, all.take(i as int), hs),
        decreases ds@.len() - i,
    {
        assert(all.take(i + 1).drop_last() =~= all.take(i as int));
        assert(all.take(i + 1).last() == *ds@[i as int]);
        let ghost was = named(r@);
        let key = own_item_key(module_id, ds[i].name.as_str());
        if let Some(h) = hashes.get(&key) {
            r.push((owned(ds[i].name.as_str()), *h));
            assert(named(r@).drop_last() =~= was);
            assert(named(r@).last() == (all[i as int].name@, h@));
        }
        i = i + 1;
    }
    assert(all.take(all.len() as int) =~= all);
    r
}

// ── abilities ───────────────────────────────────────────────────────────────

/// What methods of an ability are; an error for the first whose signature is
/// not known.
pub open spec fn method_infos(ms: Seq<AbilityMethod>) -> Result<Seq<MethodInfoView>, ErrorView>
    decreases ms.len(),
{
    if ms.len() == 0 {
        Ok(seq![])
    } else {
        match method_infos(ms.drop_last()) {
            Err(e) => Err(e),
            Ok(before) => match ms.last().resolved_signature {
                None => Err(
                    internal_at("ability method missing resolved signature"@, ms.last().span),
                ),
                Some(s) => Ok(
                    before.push(
                        MethodInfoView {
                            name: ms.last().name@,
                            signature: s@,
                            has_impl: ms.last().body is Some,
                            never: ms.last().never,
                        },
                    ),
                ),
            },
        }
    }
}

/// What an ability is; an error where its identity, or the signature of a method,
/// is not known.
pub open spec fn ability_info(d: AbilityDef) -> Result<AbilityView, ErrorView> {
    match d.resolved_id {
        None => Err(
            internal_at("ability declaration missing resolved identity"@, d.name_span),
        ),
        Some(id) => match method_infos(d.methods@) {
            Err(e) => Err(e),
            Ok(methods) => Ok(AbilityView { id, uuid: d.uuid@, methods }),
        },
    }
}

/// Abilities by their own names, with some added.
pub open spec fn with_abilities(s: Seq<(KeyView, AbilityView)>, ds: Seq<AbilityDef>) -> Result<
    Seq<(KeyView, AbilityView)>,
    ErrorView,
>
    decreases ds.len(),
{
    if ds.len() == 0 {
        Ok(s)
    } else {
        match with_abilities(s, ds.drop_last()) {
            Err(e) => Err(e),
            Ok(before) => match ability_info(ds.last()) {
                Err(e) => Err(e),
                Ok(a) => Ok(assoc_set(before, KeyView::Bare(ds.last().name@), a)),
            },
        }
    }
}

/// Abilities by their full names, with some added.
pub open spec fn with_foreign_abilities(
    s: Seq<(KeyView, AbilityView)>,
    vs: Seq<(FqnView, AbilityView)>,
) -> Seq<(KeyView, AbilityView)>
    decreases vs.len(),
{
    if vs.len() == 0 {
        s
    } else {
        assoc_set(
            with_foreign_abilities(s, vs.drop_last()),
            KeyView::Item(vs.last().0),
            vs.last().1,
        )
    }
}

proof fn lemma_methods_fault_stays(ms: Seq<AbilityMethod>, k: int)
    requires
        0 <= k <= ms.len(),
        method_infos(ms.take(k)) is Err,
    ensures
        method_infos(ms) == method_infos(ms.take(k)),
    decreases ms.len() - k,
{
    if k < ms.len() {
        assert(ms.take(k + 1).drop_last() =~= ms.take(k));
        lemma_methods_fault_stays(ms, k + 1);
    } else {
        assert(ms.take(k) =~= ms);
    }
}

/// What an ability is.
fn compiled_info(d: &AbilityDef) -> (r: Result<CompiledAbilityInfo, CompileError>)
    ensures
        match ability_info(*d) {
            Ok(a) => r matches Ok(b) && b@ == a,
            Err(e) => r matches Err(f) && f@ == e,
        },
{
    let id = match d.resolved_id {
        Some(id) => id,
        None => {
            return Err(
                CompileError::internal(
                    "ability declaration missing resolved identity",
                    d.name_span.as_pair(),
                ),
            );
        },
    };
    let ghost ms = d.methods@;
    let mut methods: Vec<CompiledMethodInfo> = Vec::new();
    let mut i: usize = 0;
    assert(ms.take(0) =~= seq![]);
    assert(method_views(methods@) =~= seq![]);
    while i < d.methods.len()
        invariant
            i <= d.methods@.len(),
            ms == d.methods@,
            d.resolved_id is Some,
            method_infos(ms.take(i as int)) == Ok::<Seq<MethodInfoView>, ErrorView>(
                method_views(methods@),
            ),
        decreases d.methods@.len() - i,
    {
        assert(ms.take(i + 1).drop_last() =~= ms.take(i as int));
        proof {
            if method_infos(ms.take(i + 1)) is Err {
                lemma_methods_fault_stays(ms, i + 1);
            }
        }
        let ghost was = method_views(methods@);
        let m = &d.methods[i];
        let signature = match m.resolved_signature {
            Some(s) => s,
            None => {
                return Err(
                    CompileError::internal(
                        "ability method missing resolved signature",
                        m.span.as_pair(),
                    ),
                );
            },
        };
        let info = CompiledMethodInfo {
            name: owned(m.name.as_str()),
            signature,
            has_impl: m.body.is_some(),
            never: m.never,
        };
        let ghost view = info@;
        methods.push(info);
        assert(method_views(methods@) =~= was.push(view));
        i = i + 1;
    }
    assert(ms.take(ms.len() as int) =~= ms);
    Ok(CompiledAbilityInfo { id, uuid: d.uuid, methods })
}

proof fn lemma_abilities_fault_stays(s: Seq<(KeyView, AbilityView)>, ds: Seq<AbilityDef>, k: int)
    requires
        0 <= k <= ds.len(),
        with_abilities(s, ds.take(k)) is Err,
    ensures
        with_abilities(s, ds) == with_abilities(s, ds.take(k)),
    decreases ds.len() - k,
{
    if k < ds.len() {
        assert(ds.take(k + 1).drop_last() =~= ds.take(k));
        lemma_abilities_fault_stays(s, ds, k + 1);
    } else {
        assert(ds.take(k) =~= ds);
    }
}

/// Add a module's own abilities.
pub fn register_abilities(table: &mut AbilityTable, ds: &Vec<&AbilityDef>) -> (r: Result<
    (),
    CompileError,
>)
    ensures
        match with_abilities(old(table)@, referents(ds@)) {
            Ok(s) => r is Ok && final(table)@ == s,
            Err(e) => r matches Err(f) && f@ == e,
        },
{
    let ghost start = table@;
    let ghost all = referents(ds@);
    let mut i: usize = 0;
    assert(all.take(0) =~= seq![]);
    while i < ds.len()
        invariant
            i <= ds@.len(),
            all == referents(ds@),
            start == old(table)@,
            with_abilities(start, all.take(i as int)) == Ok::<
                Seq<(KeyView, AbilityView)>,
                ErrorView,
            >(table@),
        decreases ds@.len() - i,
    {
        assert(all.take(i + 1).drop_last() =~= all.take(i as int));
        assert(all.take(i + 1).last() == *ds@[i as int]);
        proof {
            if with_abilities(start, all.take(i + 1)) is Err {
                lemma_abilities_fault_stays(start, all, i + 1);
            }
        }
        let info = compiled_info(ds[i])?;
        table.insert(NameKey::Bare(owned(ds[i].name.as_str())), info);
        i = i + 1;
    }
    assert(all.take(all.len() as int) =~= all);
    Ok(())
}

/// Add abilities of other modules.
pub fn register_foreign_abilities(
    table: &mut AbilityTable,
    vs: &Vec<(Fqn, CompiledAbilityInfo)>,
)
    ensures
        final(table)@ == with_foreign_abilities(old(table)@, ability_entries(vs@)),
{
    let ghost start = table@;
    let ghost all = ability_entries(vs@);
    let mut i: usize = 0;
    assert(all.take(0) =~= seq![]);
    while i < vs.len()
        invariant
            i <= vs@.len(),
            all == ability_entries(vs@),
            table@ == with_foreign_abilities(start, all.take(i as int)),
        decreases vs@.len() - i,
    {
        assert(all.take(i + 1).drop_last() =~= all.take(i as int));
        assert(all.take(i + 1).last() == (vs@[i as int].0@, vs@[i as int].1@));
        table.insert(NameKey::Item(vs[i].0.copy()), vs[i].1.copy());
        i = i + 1;
    }
    assert(all.take(all.len() as int) =~= all);
}

// ── functions ───────────────────────────────────────────────────────────────

/// Hashes by key, with the temporary hashes of functions added.
pub open spec fn with_functions(
    m: Map<KeyView, Seq<u8>>,
    id: Option<ModuleView>,
    ds: Seq<FunctionDef>,
) -> Map<KeyView, Seq<u8>>
    decreases ds.len(),
{
    if ds.len() == 0 {
        m
    } else {
        with_functions(m, id, ds.drop_last()).insert(
            own_key(id, ds.last().name@),
            temporary_hash(ds.last().name@),
        )
    }
}

/// Add the temporary hashes of functions.
pub fn link_functions(
    table: &mut NameTable<Digest>,
    module_id: &Option<ModuleId>,
    ds: &Vec<&FunctionDef>,
)
    ensures
        key_hashes(final(table)@) == with_functions(
            key_hashes(old(table)@),
            opt_module(*module_id),
            referents(ds@),
        ),
{
    let ghost start = key_hashes(table@);
    let ghost id = opt_module(*module_id);
    let ghost all = referents(ds@);
    let mut i: usize = 0;
    assert(all.take(0) =~= seq![]);
    while i < ds.len()
        invariant
            i <= ds@.len(),
            all == referents(ds@),
            id == opt_module(*module_id),
            key_hashes(table@) == with_functions(start, id, all.take(i as int)),
        decreases ds@.len() - i,
    {
        assert(all.take(i + 1).drop_last() =~= all.take(i as int));
        assert(all.take(i + 1).last() == *ds@[i as int]);
        let ghost was = key_hashes(table@);
        let hash = compute_temporary_hash(ds[i].name.as_str());
        table.insert(own_item_key(module_id, ds[i].name.as_str()), hash);
        assert(key_hashes(table@) =~= was.insert(own_key(id, all[i as int].name@), hash@));
        i = i + 1;
    }
    assert(all.take(all.len() as int) =~= all);
}

/// Hashes by key, with the temporary hashes of dispatch symbols added.
pub open spec fn with_symbols(m: Map<KeyView, Seq<u8>>, symbols: Seq<Seq<char>>) -> Map<
    KeyView,
    Seq<u8>,
>
    decreases symbols.len(),
{
    if symbols.len() == 0 {
        m
    } else {
        with_symbols(m, symbols.drop_last()).insert(
            KeyView::Bare(symbols.last()),
            temporary_hash(symbols.last()),
        )
    }
}

/// Add the temporary hashes of dispatch symbols.
pub fn link_symbols(table: &mut NameTable<Digest>, symbols: &Vec<String>)
    ensures
        key_hashes(final(table)@) == with_symbols(key_hashes(old(table)@), texts(symbols@)),
{
    let ghost start = key_hashes(table@);
    let ghost all = texts(symbols@);
    let mut i: usize = 0;
    assert(all.take(0) =~= seq![]);
    while i < symbols.len()
        invariant
            i <= symbols@.len(),
            all == texts(symbols@),
            key_hashes(table@) == with_symbols(start, all.take(i as int)),
        decreases symbols@.len() - i,
    {
        assert(all.take(i + 1).drop_last() =~= all.take(i as int));
        assert(all.take(i + 1).last() == symbols@[i as int]@);
        let ghost was = key_hashes(table@);
        let hash = compute_temporary_hash(symbols[i].as_str());
        table.insert(NameKey::Bare(owned(symbols[i].as_str())), hash);
        assert(key_hashes(table@) =~= was.insert(KeyView::Bare(all[i as int]), hash@));
        i = i + 1;
    }
    assert(all.take(all.len() as int) =~= all);
}

/// What native functions add to a module: hashes by key, objects, and names.
pub struct Natives {
    /// The hashes by key.
    pub hashes: Map<KeyView, Seq<u8>>,
    /// The objects.
    pub objects: Set<ObjectView>,
    /// The hashes by name.
    pub names: Map<Seq<char>, Seq<u8>>,
}

/// The object of a native function.
pub open spec fn native_object(b: BindingView, params: u8) -> ObjectView {
    ObjectView::Native(NativeView { uuid: b.uuid, param_count: params })
}

/// What native functions add to a module; an error for the first that the host
/// does not bind, or binds with another number of parameters.
pub open spec fn with_natives(
    m: Map<KeyView, Seq<u8>>,
    id: Option<ModuleView>,
    natives: Map<Seq<char>, BindingView>,
    ds: Seq<ExternFnDef>,
) -> Result<Natives, ErrorView>
    decreases ds.len(),
{
    if ds.len() == 0 {
        Ok(Natives { hashes: m, objects: Set::empty(), names: Map::empty() })
    } else {
        let d = ds.last();
        let declared = d.params@.len() as u8;
        match with_natives(m, id, natives, ds.drop_last()) {
            Err(e) => Err(e),
            Ok(n) => match bound_to(natives, d.name@) {
                None => Err(error_at(KindView::UnboundExternFn { name: d.name@ }, d.name_span)),
                Some(b) => if b.arity != declared {
                    Err(
                        error_at(
                            KindView::ExternArityMismatch {
                                name: d.name@,
                                declared,
                                bound: b.arity,
                            },
                            d.name_span,
                        ),
                    )
                } else {
                    let o = native_object(b, declared);
                    Ok(
                        Natives {
                            hashes: n.hashes.insert(own_key(id, d.name@), object_hash(o)),
                            objects: n.objects.insert(o),
                            names: n.names.insert(d.name@, object_hash(o)),
                        },
                    )
                },
            },
        }
    }
}

proof fn lemma_natives_fault_stays(
    m: Map<KeyView, Seq<u8>>,
    id: Option<ModuleView>,
    natives: Map<Seq<char>, BindingView>,
    ds: Seq<ExternFnDef>,
    k: int,
)
    requires
        0 <= k <= ds.len(),
        with_natives(m, id, natives, ds.take(k)) is Err,
    ensures
        with_natives(m, id, natives, ds) == with_natives(m, id, natives, ds.take(k)),
    decreases ds.len() - k,
{
    if k < ds.len() {
        assert(ds.take(k + 1).drop_last() =~= ds.take(k));
        lemma_natives_fault_stays(m, id, natives, ds, k + 1);
    } else {
        assert(ds.take(k) =~= ds);
    }
}

/// A pushed object is one more of the objects.
pub proof fn lemma_pushed_object(now: Seq<StoredObject>, was: Seq<ObjectView>, o: ObjectView)
    requires
        now.len() == was.len() + 1,
        contents(now.drop_last()) == was,
        now.last().content() == o,
    ensures
        contents(now).to_set() == was.to_set().insert(o),
{
    let all = contents(now);
    assert(all =~= was.push(o));
    assert forall|x: ObjectView| all.contains(x) <==> was.contains(x) || x == o by {
        if all.contains(x) {
            let i = all.index_of(x);
            if i < was.len() {
                assert(was[i] == x);
            }
        }
        if was.contains(x) {
            let i = was.index_of(x);
            assert(all[i] == x);
        }
        if x == o {
            assert(all[all.len() - 1] == x);
        }
    }
    assert(all.to_set() =~= was.to_set().insert(o));
}

/// Whether a name has the hash of the native function that the host binds it to.
spec fn is_native(natives: Map<Seq<char>, BindingView>, e: (Seq<char>, Seq<u8>)) -> bool {
    natives.contains_key(e.0) && e.1 == object_hash(
        native_object(natives[e.0], natives[e.0].arity),
    )
}

/// Whether names have the hashes of the native functions that the host binds them
/// to.
spec fn all_native(
    natives: Map<Seq<char>, BindingView>,
    es: Seq<(Seq<char>, Seq<u8>)>,
) -> bool {
    forall|k: int| 0 <= k < es.len() ==> is_native(natives, #[trigger] es[k])
}

proof fn lemma_native_bound(
    natives: Map<Seq<char>, BindingView>,
    es: Seq<(Seq<char>, Seq<u8>)>,
    k: int,
)
    requires
        all_native(natives, es),
        0 <= k < es.len(),
    ensures
        bound(es).contains_key(es[k].0),
        bound(es)[es[k].0] == es[k].1,
    decreases es.len(),
{
    let rest = es.drop_last();
    assert forall|i: int| 0 <= i < rest.len() implies is_native(natives, #[trigger] rest[i]) by {
        assert(rest[i] == es[i]);
    }
    assert(is_native(natives, es[k]));
    assert(is_native(natives, es[es.len() - 1]));
    if k < rest.len() {
        lemma_native_bound(natives, rest, k);
        assert(rest[k] == es[k]);
    }
}

proof fn lemma_natives_have_one_hash(
    natives: Map<Seq<char>, BindingView>,
    es: Seq<(Seq<char>, Seq<u8>)>,
)
    requires
        all_native(natives, es),
    ensures
        one_hash_each(es),
{
    assert forall|i: int| 0 <= i < es.len() implies bound(es).contains_key((#[trigger] es[i]).0)
        && bound(es)[es[i].0] == es[i].1 by {
        lemma_native_bound(natives, es, i);
    }
}

/// Link native functions: a native function is the object of its host binding
/// and its number of parameters, so its hash is final at once.
pub fn link_natives(
    table: &mut NameTable<Digest>,
    module_id: &Option<ModuleId>,
    natives: &OrdMap<String, NativeBinding>,
    ds: &Vec<&ExternFnDef>,
) -> (r: Result<(Vec<StoredObject>, Vec<(String, Digest)>), CompileError>)
    ensures
        match with_natives(
            key_hashes(old(table)@),
            opt_module(*module_id),
            binding_map(natives@),
            referents(ds@),
        ) {
            Ok(n) => r matches Ok((objects, names)) && key_hashes(final(table)@) == n.hashes
                && contents(objects@).to_set() == n.objects && bound(named(names@)) == n.names
                && one_hash_each(named(names@)),
            Err(e) => r matches Err(f) && f@ == e,
        },
{
    let ghost start = key_hashes(table@);
    let ghost id = opt_module(*module_id);
    let ghost bs = binding_map(natives@);
    let ghost all = referents(ds@);
    let mut objects: Vec<StoredObject> = Vec::new();
    let mut names: Vec<(String, Digest)> = Vec::new();
    let mut i: usize = 0;
    assert(all.take(0) =~= seq![]);
    assert(contents(objects@).to_set() =~= Set::empty());
    assert(named(names@) =~= seq![]);
    while i < ds.len()
        invariant
            i <= ds@.len(),
            all == referents(ds@),
            start == key_hashes(old(table)@),
            id == opt_module(*module_id),
            bs == binding_map(natives@),
            with_natives(start, id, bs, all.take(i as int)) matches Ok(n) && key_hashes(table@)
                == n.hashes && contents(objects@).to_set() == n.objects && bound(named(names@))
                == n.names,
            all_native(bs, named(names@)),
        decreases ds@.len() - i,
    {
        assert(all.take(i + 1).drop_last() =~= all.take(i as int));
        assert(all.take(i + 1).last() == *ds@[i as int]);
        proof {
            if with_natives(start, id, bs, all.take(i + 1)) is Err {
                lemma_natives_fault_stays(start, id, bs, all, i + 1);
            }
        }
        let ghost n = with_natives(start, id, bs, all.take(i as int))->Ok_0;
        let d = ds[i];
        let binding = match natives.get(&d.name) {
            Some(b) => b,
            None => {
                return Err(
                    CompileError::new(
                        CompileErrorKind::UnboundExternFn { name: owned(d.name.as_str()) },
                        d.name_span.as_pair(),
                    ),
                );
            },
        };
        let declared: u8 = d.params.len() as u8;
        if binding.arity != declared {
            return Err(
                CompileError::new(
                    CompileErrorKind::ExternArityMismatch {
                        name: owned(d.name.as_str()),
                        declared,
                        bound: binding.arity,
                    },
                    d.name_span.as_pair(),
                ),
            );
        }
        let object = StoredObject::Native(
            NativeFunction { uuid: binding.uuid, param_count: declared },
        );
        let ghost o = native_object(binding@, declared);
        assert(object.content() == o);
        let hash = object.hash();
        table.insert(own_item_key(module_id, d.name.as_str()), hash);
        let ghost os = contents(objects@);
        let ghost first = objects@;
        let ghost ns = named(names@);
        objects.push(object);
        names.push((owned(d.name.as_str()), hash));
        proof {
            assert(key_hashes(table@) =~= n.hashes.insert(own_key(id, d.name@), hash@));
            assert(objects@.drop_last() =~= first);
            lemma_pushed_object(objects@, os, o);
            assert(named(names@).drop_last() =~= ns);
            assert(named(names@).last() == (d.name@, hash@));
            assert forall|k: int| 0 <= k < names@.len() implies is_native(
                bs,
                #[trigger] named(names@)[k],
            ) by {
                if k < ns.len() {
                    assert(named(names@)[k] == ns[k]);
                }
            }
        }
        i = i + 1;
    }
    assert(all.take(all.len() as int) =~= all);
    proof {
        lemma_natives_have_one_hash(bs, named(names@));
    }
    Ok((objects, names))
}

} // verus!
