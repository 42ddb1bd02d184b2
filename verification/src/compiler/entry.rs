//! Compiling a module: its functions are compiled under temporary hashes to the
//! module's symbolic form, and the form is assembled.

use vstd::prelude::*;

use crate::ast::{
    AbilityDef, AbilityMethod, FunctionDef, ImplDef, ImplMethod, Module,
};
use crate::bytecode::{CompiledFunction, FunctionView};
use crate::compiler::assemble::{
    assemble_fault, assemble_module, assembled, check_views, form_nodes, function_entries,
    input_nodes, named, nodes_of_form, one_hash_each, opt_signature, text_map, unambiguous,
    AbilityMethodCheck, AssembleInputs, CheckView, FormView,
};
use crate::compiler::context::{
    function_hash, impl_symbol, method_symbol, ModuleContext, ModuleTables, Produced, TablesView,
};
use crate::compiler::dicts::internal_at;
use crate::compiler::error::{CompileError, ErrorView};
use crate::compiler::functions::{
    ability_method_body, compile_ability_method, compile_function_with_hash, compile_impl_method,
    function_body, impl_method_body, origin, Origin,
};
use crate::compiler::hash::{
    const_hashes, const_objects, finalizable, finalize_const_values, finalizes,
    key_hashes,
};
use crate::compiler::items::{
    abilities_of, ability_methods, ability_methods_of, all_abilities, all_consts, all_enums,
    all_externs, all_functions, all_impls, all_structs, consts_of, enums_of, externs_of,
    functions_of, impl_methods, impl_methods_of, impls_of, referent_pairs, referents, structs_of,
};
use crate::compiler::module_output::{name_map, object_map, CompiledModule};
use crate::compiler::tables::{
    const_names, const_names_of, const_values, const_values_of, link_functions, link_natives,
    link_symbols, own_key, register_abilities, register_enums, register_foreign_abilities,
    register_foreign_variants, register_imported_enums, register_imported_unit_structs,
    register_unit_structs, with_abilities, with_enums, with_foreign_abilities,
    with_foreign_variants, with_functions, with_keys, with_natives, with_symbols,
    with_unit_structs, Natives,
};
use crate::digest::Digest;
use crate::fqn::{bindings, KeyView, ModuleView, NameTable};
use crate::module_env::{empty_env, EnvView, ModuleEnv};
use crate::module_paths::texts;
use crate::nominal::{uuid_text, uuid_to_text};
use crate::object::{ObjectView, StoredObject};
use crate::order::text_same;
use crate::ordmap::{entries_map, entry_found, has_key, key_position, keys_increase, Key, OrdMap};
use crate::text::owned;
use crate::wire::{contents, Wire};

verus! {

broadcast use {vstd::string::group_string_axioms, vstd::array::group_array_axioms};

// ── options ─────────────────────────────────────────────────────────────────

/// What a module is compiled with.
pub struct CompileOptions<'a> {
    /// The source, for debug information.
    pub source: Option<&'a str>,
    /// The source file, for debug information.
    pub source_file: Option<&'a str>,
    /// The hashes of imported functions.
    pub imported_hashes: Option<NameTable<Digest>>,
    /// What the module sees of the rest of the build.
    pub env: ModuleEnv,
}

/// What [`CompileOptions`] say.
pub struct OptionsView {
    /// Where the source comes from.
    pub origin: Origin,
    /// The hashes of imported functions.
    pub imported: Map<KeyView, Seq<u8>>,
    /// What the module sees of the rest of the build.
    pub env: EnvView,
}

/// The hashes of imported functions, if there are any.
pub open spec fn imported_map(t: Option<NameTable<Digest>>) -> Map<KeyView, Seq<u8>> {
    match t {
        Some(t) => key_hashes(t@),
        None => Map::empty(),
    }
}

impl<'a> View for CompileOptions<'a> {
    type V = OptionsView;

    open spec fn view(&self) -> OptionsView {
        OptionsView {
            origin: origin(self.source, self.source_file),
            imported: imported_map(self.imported_hashes),
            env: self.env@,
        }
    }
}

/// Options without debug information, imports, or the rest of a build.
pub open spec fn plain_options() -> OptionsView {
    OptionsView {
        origin: Origin { source: None, source_file: None },
        imported: Map::empty(),
        env: empty_env(),
    }
}

impl<'a> Default for CompileOptions<'a> {
    /// Options without debug information, imports, or the rest of a build.
    fn default() -> (r: CompileOptions<'a>)
        ensures
            r@ == plain_options(),
            r.source is None,
            r.source_file is None,
            r.imported_hashes is None,
            r.env@ == empty_env(),
    {
        CompileOptions {
            source: None,
            source_file: None,
            imported_hashes: None,
            env: ModuleEnv::default(),
        }
    }
}

// ── the symbolic form ───────────────────────────────────────────────────────

/// The dispatch symbols of default implementations.
pub open spec fn ability_symbols(ms: Seq<(AbilityDef, AbilityMethod)>) -> Seq<Seq<char>> {
    Seq::new(ms.len(), |i: int| impl_symbol(ms[i].0.uuid@, ms[i].1.name@))
}

/// The dispatch symbols of methods of impls; an error for the first that has
/// none.
pub open spec fn impl_symbols(ms: Seq<(ImplDef, ImplMethod)>) -> Result<Seq<Seq<char>>, ErrorView>
    decreases ms.len(),
{
    if ms.len() == 0 {
        Ok(seq![])
    } else {
        match impl_symbols(ms.drop_last()) {
            Err(e) => Err(e),
            Ok(before) => match ms.last().1.resolved_symbol {
                Some(s) => Ok(before.push(s@)),
                None => Err(
                    internal_at("impl method missing resolved symbol"@, ms.last().1.span),
                ),
            },
        }
    }
}

/// What the names of a module mean, given the hashes of functions.
pub open spec fn tables_of(m: Module, env: EnvView, hashes: Map<KeyView, Seq<u8>>) -> Result<
    TablesView,
    ErrorView,
> {
    let items = m.items@;
    let id = env.module_id;
    match with_abilities(seq![], all_abilities(items)) {
        Err(e) => Err(e),
        Ok(abilities) => Ok(
            TablesView {
                function_hashes: hashes,
                enums: with_enums(with_enums(Map::empty(), env.imported_enums), all_enums(items)),
                foreign_variants: with_foreign_variants(Map::empty(), env.foreign_enum_variants),
                unit_structs: with_unit_structs(
                    with_keys(Set::empty(), env.foreign_unit_structs),
                    id,
                    all_structs(items),
                ),
                thunks: Set::empty(),
                const_hashes: const_hashes(const_values(id, all_consts(items))).union_prefer_right(
                    env.foreign_const_hashes,
                ),
                abilities,
                foreign_abilities: with_foreign_abilities(seq![], env.foreign_abilities),
                module_id: id,
            },
        ),
    }
}

/// What the bodies of functions became: the functions, and what was produced
/// besides.
pub struct Bodies {
    /// The functions, each with its name and whether it is the entry point.
    pub functions: Seq<(Seq<char>, FunctionView, bool)>,
    /// What was produced besides.
    pub out: Produced,
}

/// Nothing compiled yet.
pub open spec fn no_bodies() -> Bodies {
    Bodies {
        functions: seq![],
        out: Produced {
            lambdas: seq![],
            counter: 0,
            const_objects: Map::empty(),
            current: "__unknown__"@,
        },
    }
}

/// One more function.
pub open spec fn with_body(
    b: Bodies,
    name: Seq<char>,
    is_main: bool,
    r: Result<(FunctionView, Produced), ErrorView>,
) -> Result<Bodies, ErrorView> {
    match r {
        Err(e) => Err(e),
        Ok((f, out)) => Ok(Bodies { functions: b.functions.push((name, f, is_main)), out }),
    }
}

/// What is produced while a function of a name is compiled.
pub open spec fn within(out: Produced, name: Seq<char>) -> Produced {
    Produced { current: name, ..out }
}

/// The named functions. The one named `run` is the entry point.
pub open spec fn function_bodies(t: TablesView, fs: Seq<FunctionDef>, o: Origin) -> Result<
    Bodies,
    ErrorView,
>
    decreases fs.len(),
{
    if fs.len() == 0 {
        Ok(no_bodies())
    } else {
        let f = fs.last();
        match function_bodies(t, fs.drop_last(), o) {
            Err(e) => Err(e),
            Ok(b) => with_body(
                b,
                f.name@,
                f.name@ == "run"@,
                function_body(t, f, o, within(b.out, f.name@)),
            ),
        }
    }
}

/// The methods of impls, behind other functions.
pub open spec fn impl_bodies(
    t: TablesView,
    ms: Seq<(ImplDef, ImplMethod)>,
    o: Origin,
    first: Bodies,
) -> Result<Bodies, ErrorView>
    decreases ms.len(),
{
    if ms.len() == 0 {
        Ok(first)
    } else {
        let (d, m) = ms.last();
        match impl_bodies(t, ms.drop_last(), o, first) {
            Err(e) => Err(e),
            Ok(b) => match m.resolved_symbol {
                Some(s) => with_body(
                    b,
                    s@,
                    false,
                    impl_method_body(t, d, m, o, within(b.out, s@)),
                ),
                None => Ok(b),
            },
        }
    }
}

/// The default implementations of abilities' methods, behind other functions.
pub open spec fn ability_bodies(
    t: TablesView,
    ms: Seq<(AbilityDef, AbilityMethod)>,
    o: Origin,
    first: Bodies,
) -> Result<Bodies, ErrorView>
    decreases ms.len(),
{
    if ms.len() == 0 {
        Ok(first)
    } else {
        let (d, m) = ms.last();
        let symbol = impl_symbol(d.uuid@, m.name@);
        match ability_bodies(t, ms.drop_last(), o, first) {
            Err(e) => Err(e),
            Ok(b) => with_body(
                b,
                symbol,
                false,
                ability_method_body(t, d, m, symbol, o, within(b.out, symbol)),
            ),
        }
    }
}

/// All functions of a module.
pub open spec fn module_bodies(t: TablesView, m: Module, o: Origin) -> Result<Bodies, ErrorView> {
    match function_bodies(t, all_functions(m.items@), o) {
        Err(e) => Err(e),
        Ok(a) => match impl_bodies(t, impl_methods(all_impls(m.items@)), o, a) {
            Err(e) => Err(e),
            Ok(b) => ability_bodies(t, ability_methods(all_abilities(m.items@)), o, b),
        },
    }
}

/// The names that order default implementations in a recursive group: the
/// identity of the ability, so that renaming a method moves no hash.
pub open spec fn group_names(ms: Seq<(AbilityDef, AbilityMethod)>) -> Map<Seq<char>, Seq<char>>
    decreases ms.len(),
{
    if ms.len() == 0 {
        Map::empty()
    } else {
        group_names(ms.drop_last()).insert(
            impl_symbol(ms.last().0.uuid@, ms.last().1.name@),
            uuid_text(ms.last().0.uuid@),
        )
    }
}

/// What is checked of default implementations.
pub open spec fn method_checks(ms: Seq<(AbilityDef, AbilityMethod)>) -> Seq<CheckView> {
    Seq::new(
        ms.len(),
        |i: int|
            CheckView {
                symbol: impl_symbol(ms[i].0.uuid@, ms[i].1.name@),
                uuid: ms[i].0.uuid@,
                signature: opt_signature(ms[i].1.resolved_signature),
                ability_name: ms[i].0.name@,
                method_name: ms[i].1.name@,
                span: ms[i].1.span.pair(),
            },
    )
}

/// The hashes of functions while a module is compiled, and its native functions.
pub open spec fn linking(m: Module, o: OptionsView) -> Result<Natives, ErrorView> {
    let items = m.items@;
    let id = o.env.module_id;
    match with_natives(
        with_functions(o.imported, id, all_functions(items)),
        id,
        o.env.extern_natives,
        all_externs(items),
    ) {
        Err(e) => Err(e),
        Ok(n) => match impl_symbols(impl_methods(all_impls(items))) {
            Err(e) => Err(e),
            Ok(symbols) => Ok(
                Natives {
                    hashes: with_symbols(
                        with_symbols(
                            n.hashes,
                            ability_symbols(ability_methods(all_abilities(items))),
                        ),
                        symbols,
                    ),
                    ..n
                },
            ),
        },
    }
}

/// The symbolic form of a module, or the first error: of linking, of the
/// abilities, then of the functions.
pub open spec fn symbolic_form(m: Module, o: OptionsView) -> Result<FormView, ErrorView> {
    let items = m.items@;
    let id = o.env.module_id;
    let values = const_values(id, all_consts(items));
    let methods = ability_methods(all_abilities(items));
    match linking(m, o) {
        Err(e) => Err(e),
        Ok(n) => match tables_of(m, o.env, n.hashes) {
            Err(e) => Err(e),
            Ok(t) => match module_bodies(t, m, o.origin) {
                Err(e) => Err(e),
                Ok(b) => Ok(
                    FormView {
                        functions: b.functions,
                        lambdas: b.out.lambdas,
                        group_names: group_names(methods),
                        const_objects: const_objects(values).values().union(
                            b.out.const_objects.values(),
                        ),
                        const_names: const_names(id, all_consts(items), const_hashes(values)),
                        native_objects: n.objects,
                        native_names: n.names,
                        migrations: seq![],
                        checks: method_checks(methods),
                    },
                ),
            },
        },
    }
}

/// Whether a module was assembled from a symbolic form.
pub open spec fn assembles(form: FormView, m: CompiledModule) -> bool {
    &&& unambiguous(form.checks, name_map(m.function_names@))
    &&& exists|inputs: AssembleInputs, h: Seq<Seq<u8>>, base: CompiledModule|
        #![trigger finalizes(input_nodes(inputs), h, base), assembled(inputs, base, m)]
        inputs@ == form && one_hash_each(named(inputs.native_names@)) && finalizes(
            input_nodes(inputs),
            h,
            base,
        ) && assembled(inputs, base, m)
}

/// What compiling a module gives: the error of its symbolic form, else what
/// assembling the form gives.
pub open spec fn compiles(
    m: Module,
    o: OptionsView,
    r: Result<CompiledModule, CompileError>,
) -> bool {
    match symbolic_form(m, o) {
        Err(e) => r matches Err(f) && f@ == e,
        Ok(form) => {
            &&& match r {
                Ok(c) => assembles(form, c),
                Err(e) => exists|inputs: AssembleInputs|
                    inputs@ == form && #[trigger] assemble_fault(inputs, e@),
            }
            &&& r is Ok ==> finalizable(form_nodes(form))
            &&& finalizable(form_nodes(form)) && form.checks.len() == 0 ==> r is Ok
        },
    }
}

// ── making the symbolic form ────────────────────────────────────────────────

/// Bind what another table binds.
fn extend_hashes(table: &mut NameTable<Digest>, other: &NameTable<Digest>)
    ensures
        key_hashes(final(table)@) == key_hashes(old(table)@).union_prefer_right(
            key_hashes(other@),
        ),
{
    let ghost start = key_hashes(table@);
    let ghost es = other.entries@;
    let mut i: usize = 0;
    assert(es.take(0) =~= seq![]);
    assert(start =~= start.union_prefer_right(key_hashes(bindings(es.take(0)))));
    while i < other.entries.len()
        invariant
            i <= other.entries@.len(),
            es == other.entries@,
            key_hashes(table@) == start.union_prefer_right(
                key_hashes(bindings(es.take(i as int))),
            ),
        decreases other.entries@.len() - i,
    {
        assert(es.take(i + 1).drop_last() =~= es.take(i as int));
        let ghost was = key_hashes(table@);
        let ghost k = es[i as int].0@;
        let ghost h = es[i as int].1@;
        table.insert(other.entries[i].0.copy(), other.entries[i].1);
        assert(key_hashes(table@) =~= was.insert(k, h));
        i = i + 1;
        assert(key_hashes(table@) =~= start.union_prefer_right(
            key_hashes(bindings(es.take(i as int))),
        ));
    }
    assert(es.take(es.len() as int) =~= es);
}

/// Add the objects of a map to a list.
fn list_objects(out: &mut Vec<StoredObject>, m: &OrdMap<Digest, StoredObject>)
    ensures
        contents(final(out)@).to_set() == contents(old(out)@).to_set().union(
            object_map(m@).values(),
        ),
{
    let entries = m.items();
    let ghost start = contents(out@).to_set();
    let ghost all = object_map(m@);
    let ghost seen: Set<ObjectView> = Set::empty();
    let mut i: usize = 0;
    assert(start =~= start.union(seen));
    while i < entries.len()
        invariant
            i <= entries@.len(),
            keys_increase(entries@),
            m@ == entries_map(entries@),
            all == object_map(m@),
            contents(out@).to_set() == start.union(seen),
            forall|o: ObjectView|
                seen.contains(o) <==> exists|k: int|
                    0 <= k < i && (#[trigger] entries@[k]).1.content() == o,
        decreases entries@.len() - i,
    {
        let ghost was = out@;
        let ghost o = entries@[i as int].1.content();
        out.push(entries[i].1.copy());
        proof {
            assert(out@.drop_last() =~= was);
            crate::compiler::tables::lemma_pushed_object(out@, contents(was), o);
            let old_seen = seen;
            seen = seen.insert(o);
            assert(start.union(seen) =~= start.union(old_seen).insert(o));
            assert forall|x: ObjectView|
                seen.contains(x) <==> exists|k: int|
                    0 <= k < i + 1 && (#[trigger] entries@[k]).1.content() == x by {
                if seen.contains(x) {
                    if x == o {
                        assert(entries@[i as int].1.content() == x);
                    }
                }
            }
        }
        i = i + 1;
    }
    proof {
        assert forall|x: ObjectView| seen.contains(x) <==> all.values().contains(x) by {
            if seen.contains(x) {
                let k = choose|k: int|
                    0 <= k < entries@.len() && (#[trigger] entries@[k]).1.content() == x;
                entry_found(entries@, k);
                assert(all.contains_key(entries@[k].0.model()));
                assert(all[entries@[k].0.model()] == x);
            }
            if all.values().contains(x) {
                let key = choose|key: Seq<u8>| all.contains_key(key) && all[key] == x;
                let k = key_position(entries@, key);
                assert(has_key(entries@, key));
                assert(entries@[k].1.content() == x);
            }
        }
        assert(seen =~= all.values());
    }
}

/// The dispatch symbols of default implementations.
fn ability_symbols_of(ms: &Vec<(&AbilityDef, &AbilityMethod)>) -> (r: Vec<String>)
    ensures
        texts(r@) == ability_symbols(referent_pairs(ms@)),
{
    let mut r: Vec<String> = Vec::new();
    let mut i: usize = 0;
    while i < ms.len()
        invariant
            i <= ms@.len(),
            r@.len() == i,
            forall|k: int|
                0 <= k < i ==> (#[trigger] r@[k])@ == ability_symbols(referent_pairs(ms@))[k],
        decreases ms@.len() - i,
    {
        r.push(method_symbol(&ms[i].0.uuid, ms[i].1.name.as_str()));
        i = i + 1;
    }
    assert(texts(r@) =~= ability_symbols(referent_pairs(ms@)));
    r
}

proof fn lemma_symbols_fault_stays(ms: Seq<(ImplDef, ImplMethod)>, k: int)
    requires
        0 <= k <= ms.len(),
        impl_symbols(ms.take(k)) is Err,
    ensures
        impl_symbols(ms) == impl_symbols(ms.take(k)),
    decreases ms.len() - k,
{
    if k < ms.len() {
        assert(ms.take(k + 1).drop_last() =~= ms.take(k));
        lemma_symbols_fault_stays(ms, k + 1);
    } else {
        assert(ms.take(k) =~= ms);
    }
}

/// The dispatch symbols of methods of impls.
fn impl_symbols_of(ms: &Vec<(&ImplDef, &ImplMethod)>) -> (r: Result<Vec<String>, CompileError>)
    ensures
        match impl_symbols(referent_pairs(ms@)) {
            Ok(s) => r matches Ok(v) && texts(v@) == s,
            Err(e) => r matches Err(f) && f@ == e,
        },
{
    let ghost all = referent_pairs(ms@);
    let mut out: Vec<String> = Vec::new();
    let mut i: usize = 0;
    assert(all.take(0) =~= seq![]);
    assert(texts(out@) =~= seq![]);
    while i < ms.len()
        invariant
            i <= ms@.len(),
            all == referent_pairs(ms@),
            impl_symbols(all.take(i as int)) == Ok::<Seq<Seq<char>>, ErrorView>(texts(out@)),
        decreases ms@.len() - i,
    {
        assert(all.take(i + 1).drop_last() =~= all.take(i as int));
        proof {
            if impl_symbols(all.take(i + 1)) is Err {
                lemma_symbols_fault_stays(all, i + 1);
            }
            assert(all.take(i + 1).last() == (*ms@[i as int].0, *ms@[i as int].1));
        }
        let ghost was = texts(out@);
        match &ms[i].1.resolved_symbol {
            Some(s) => {
                out.push(owned(s.as_str()));
                assert(texts(out@) =~= was.push(s@));
            },
            None => {
                return Err(
                    CompileError::internal(
                        "impl method missing resolved symbol",
                        ms[i].1.span.as_pair(),
                    ),
                );
            },
        }
        i = i + 1;
    }
    assert(all.take(all.len() as int) =~= all);
    Ok(out)
}

/// The names that order default implementations in a recursive group.
fn group_names_of(ms: &Vec<(&AbilityDef, &AbilityMethod)>) -> (r: OrdMap<String, String>)
    ensures
        text_map(r@) == group_names(referent_pairs(ms@)),
{
    let ghost all = referent_pairs(ms@);
    let mut r: OrdMap<String, String> = OrdMap::new();
    let mut i: usize = 0;
    assert(all.take(0) =~= seq![]);
    assert(text_map(r@) =~= Map::empty());
    while i < ms.len()
        invariant
            i <= ms@.len(),
            all == referent_pairs(ms@),
            text_map(r@) == group_names(all.take(i as int)),
        decreases ms@.len() - i,
    {
        assert(all.take(i + 1).drop_last() =~= all.take(i as int));
        assert(all.take(i + 1).last() == (*ms@[i as int].0, *ms@[i as int].1));
        let ghost was = text_map(r@);
        let symbol = method_symbol(&ms[i].0.uuid, ms[i].1.name.as_str());
        let group = uuid_to_text(&ms[i].0.uuid);
        let ghost k = symbol@;
        let ghost v = group@;
        r.insert(symbol, group);
        assert(text_map(r@) =~= was.insert(k, v));
        i = i + 1;
    }
    assert(all.take(all.len() as int) =~= all);
    r
}

/// What is checked of default implementations.
fn method_checks_of(ms: &Vec<(&AbilityDef, &AbilityMethod)>) -> (r: Vec<AbilityMethodCheck>)
    ensures
        check_views(r@) == method_checks(referent_pairs(ms@)),
{
    let ghost want = method_checks(referent_pairs(ms@));
    let mut r: Vec<AbilityMethodCheck> = Vec::new();
    let mut i: usize = 0;
    while i < ms.len()
        invariant
            i <= ms@.len(),
            want == method_checks(referent_pairs(ms@)),
            r@.len() == i,
            forall|k: int| 0 <= k < i ==> (#[trigger] r@[k])@ == want[k],
        decreases ms@.len() - i,
    {
        let d = ms[i].0;
        let m = ms[i].1;
        r.push(
            AbilityMethodCheck {
                symbol: method_symbol(&d.uuid, m.name.as_str()),
                uuid: d.uuid,
                signature: m.resolved_signature,
                ability_name: owned(d.name.as_str()),
                method_name: owned(m.name.as_str()),
                span: m.span.as_pair(),
            },
        );
        i = i + 1;
    }
    assert(check_views(r@) =~= want);
    r
}

// ── compiling the functions ─────────────────────────────────────────────────

/// Whether the functions so far and what was produced are what they should be.
spec fn reached_bodies(
    b: Bodies,
    functions: Seq<(String, CompiledFunction, bool)>,
    ctx: ModuleContext,
) -> bool {
    function_entries(functions) == b.functions && ctx@ == b.out
}

proof fn lemma_function_fault_stays(t: TablesView, fs: Seq<FunctionDef>, o: Origin, k: int)
    requires
        0 <= k <= fs.len(),
        function_bodies(t, fs.take(k), o) is Err,
    ensures
        function_bodies(t, fs, o) == function_bodies(t, fs.take(k), o),
    decreases fs.len() - k,
{
    if k < fs.len() {
        assert(fs.take(k + 1).drop_last() =~= fs.take(k));
        lemma_function_fault_stays(t, fs, o, k + 1);
    } else {
        assert(fs.take(k) =~= fs);
    }
}

/// Compile the named functions.
fn compile_functions(
    t: &ModuleTables,
    fs: &Vec<&FunctionDef>,
    source: Option<&str>,
    source_file: Option<&str>,
    ctx: &mut ModuleContext,
) -> (r: Result<Vec<(String, CompiledFunction, bool)>, CompileError>)
    requires
        old(ctx)@ == no_bodies().out,
        forall|i: int|
            0 <= i < fs@.len() ==> function_hash(
                t@,
                own_key(t@.module_id, (#[trigger] fs@[i]).name@),
            ) is Some,
    ensures
        match function_bodies(t@, referents(fs@), origin(source, source_file)) {
            Ok(b) => r matches Ok(v) && reached_bodies(b, v@, *final(ctx)),
            Err(e) => r matches Err(f) && f@ == e,
        },
{
    let ghost o = origin(source, source_file);
    let ghost all = referents(fs@);
    let mut out: Vec<(String, CompiledFunction, bool)> = Vec::new();
    let mut i: usize = 0;
    assert(all.take(0) =~= seq![]);
    assert(function_entries(out@) =~= seq![]);
    while i < fs.len()
        invariant
            i <= fs@.len(),
            all == referents(fs@),
            o == origin(source, source_file),
            forall|k: int|
                0 <= k < fs@.len() ==> function_hash(
                    t@,
                    own_key(t@.module_id, (#[trigger] fs@[k]).name@),
                ) is Some,
            function_bodies(t@, all.take(i as int), o) matches Ok(b) && reached_bodies(
                b,
                out@,
                *ctx,
            ),
        decreases fs@.len() - i,
    {
        assert(all.take(i + 1).drop_last() =~= all.take(i as int));
        assert(all.take(i + 1).last() == *fs@[i as int]);
        proof {
            if function_bodies(t@, all.take(i + 1), o) is Err {
                lemma_function_fault_stays(t@, all, o, i + 1);
            }
        }
        let ghost b = function_bodies(t@, all.take(i as int), o)->Ok_0;
        let f = fs[i];
        ctx.set_current_function(f.name.as_str());
        let compiled = compile_function_with_hash(f, t, ctx, source, source_file)?;
        let is_main = text_same(f.name.as_str(), "run");
        let ghost x = (f.name@, compiled@, is_main);
        out.push((owned(f.name.as_str()), compiled, is_main));
        assert(function_entries(out@) =~= b.functions.push(x));
        i = i + 1;
    }
    assert(all.take(all.len() as int) =~= all);
    Ok(out)
}

proof fn lemma_impl_fault_stays(
    t: TablesView,
    ms: Seq<(ImplDef, ImplMethod)>,
    o: Origin,
    first: Bodies,
    k: int,
)
    requires
        0 <= k <= ms.len(),
        impl_bodies(t, ms.take(k), o, first) is Err,
    ensures
        impl_bodies(t, ms, o, first) == impl_bodies(t, ms.take(k), o, first),
    decreases ms.len() - k,
{
    if k < ms.len() {
        assert(ms.take(k + 1).drop_last() =~= ms.take(k));
        lemma_impl_fault_stays(t, ms, o, first, k + 1);
    } else {
        assert(ms.take(k) =~= ms);
    }
}

/// Compile the methods of impls.
fn compile_impl_methods(
    t: &ModuleTables,
    ms: &Vec<(&ImplDef, &ImplMethod)>,
    source: Option<&str>,
    source_file: Option<&str>,
    out: &mut Vec<(String, CompiledFunction, bool)>,
    ctx: &mut ModuleContext,
    first: Ghost<Bodies>,
) -> (r: Result<(), CompileError>)
    requires
        reached_bodies(first@, old(out)@, *old(ctx)),
    ensures
        match impl_bodies(t@, referent_pairs(ms@), origin(source, source_file), first@) {
            Ok(b) => r is Ok && reached_bodies(b, final(out)@, *final(ctx)),
            Err(e) => r matches Err(f) && f@ == e,
        },
{
    let ghost o = origin(source, source_file);
    let ghost all = referent_pairs(ms@);
    let mut i: usize = 0;
    assert(all.take(0) =~= seq![]);
    while i < ms.len()
        invariant
            i <= ms@.len(),
            all == referent_pairs(ms@),
            o == origin(source, source_file),
            impl_bodies(t@, all.take(i as int), o, first@) matches Ok(b) && reached_bodies(
                b,
                out@,
                *ctx,
            ),
        decreases ms@.len() - i,
    {
        assert(all.take(i + 1).drop_last() =~= all.take(i as int));
        assert(all.take(i + 1).last() == (*ms@[i as int].0, *ms@[i as int].1));
        proof {
            if impl_bodies(t@, all.take(i + 1), o, first@) is Err {
                lemma_impl_fault_stays(t@, all, o, first@, i + 1);
            }
        }
        let ghost b = impl_bodies(t@, all.take(i as int), o, first@)->Ok_0;
        if let Some(symbol) = &ms[i].1.resolved_symbol {
            ctx.set_current_function(symbol.as_str());
            let compiled = compile_impl_method(ms[i].0, ms[i].1, t, ctx, source, source_file)?;
            let ghost x = (symbol@, compiled@, false);
            out.push((owned(symbol.as_str()), compiled, false));
            assert(function_entries(out@) =~= b.functions.push(x));
        }
        i = i + 1;
    }
    assert(all.take(all.len() as int) =~= all);
    Ok(())
}

proof fn lemma_ability_fault_stays(
    t: TablesView,
    ms: Seq<(AbilityDef, AbilityMethod)>,
    o: Origin,
    first: Bodies,
    k: int,
)
    requires
        0 <= k <= ms.len(),
        ability_bodies(t, ms.take(k), o, first) is Err,
    ensures
        ability_bodies(t, ms, o, first) == ability_bodies(t, ms.take(k), o, first),
    decreases ms.len() - k,
{
    if k < ms.len() {
        assert(ms.take(k + 1).drop_last() =~= ms.take(k));
        lemma_ability_fault_stays(t, ms, o, first, k + 1);
    } else {
        assert(ms.take(k) =~= ms);
    }
}

/// Compile the default implementations of abilities' methods.
fn compile_ability_methods(
    t: &ModuleTables,
    ms: &Vec<(&AbilityDef, &AbilityMethod)>,
    source: Option<&str>,
    source_file: Option<&str>,
    out: &mut Vec<(String, CompiledFunction, bool)>,
    ctx: &mut ModuleContext,
    first: Ghost<Bodies>,
) -> (r: Result<(), CompileError>)
    requires
        reached_bodies(first@, old(out)@, *old(ctx)),
        forall|i: int|
            0 <= i < ms@.len() ==> function_hash(
                t@,
                KeyView::Bare(#[trigger] ability_symbols(referent_pairs(ms@))[i]),
            ) is Some,
    ensures
        match ability_bodies(t@, referent_pairs(ms@), origin(source, source_file), first@) {
            Ok(b) => r is Ok && reached_bodies(b, final(out)@, *final(ctx)),
            Err(e) => r matches Err(f) && f@ == e,
        },
{
    let ghost o = origin(source, source_file);
    let ghost all = referent_pairs(ms@);
    let mut i: usize = 0;
    assert(all.take(0) =~= seq![]);
    while i < ms.len()
        invariant
            i <= ms@.len(),
            all == referent_pairs(ms@),
            o == origin(source, source_file),
            forall|k: int|
                0 <= k < ms@.len() ==> function_hash(
                    t@,
                    KeyView::Bare(#[trigger] ability_symbols(all)[k]),
                ) is Some,
            ability_bodies(t@, all.take(i as int), o, first@) matches Ok(b) && reached_bodies(
                b,
                out@,
                *ctx,
            ),
        decreases ms@.len() - i,
    {
        assert(all.take(i + 1).drop_last() =~= all.take(i as int));
        assert(all.take(i + 1).last() == (*ms@[i as int].0, *ms@[i as int].1));
        proof {
            if ability_bodies(t@, all.take(i + 1), o, first@) is Err {
                lemma_ability_fault_stays(t@, all, o, first@, i + 1);
            }
        }
        let ghost b = ability_bodies(t@, all.take(i as int), o, first@)->Ok_0;
        let symbol = method_symbol(&ms[i].0.uuid, ms[i].1.name.as_str());
        assert(symbol@ == ability_symbols(all)[i as int]);
        ctx.set_current_function(symbol.as_str());
        let compiled = compile_ability_method(
            ms[i].0,
            ms[i].1,
            symbol.as_str(),
            t,
            ctx,
            source,
            source_file,
        )?;
        let ghost x = (symbol@, compiled@, false);
        out.push((symbol, compiled, false));
        assert(function_entries(out@) =~= b.functions.push(x));
        i = i + 1;
    }
    assert(all.take(all.len() as int) =~= all);
    Ok(())
}

// ── linked names stay linked ────────────────────────────────────────────────

proof fn lemma_functions_linked(
    m: Map<KeyView, Seq<u8>>,
    id: Option<ModuleView>,
    ds: Seq<FunctionDef>,
    i: int,
)
    requires
        0 <= i < ds.len(),
    ensures
        with_functions(m, id, ds).contains_key(own_key(id, ds[i].name@)),
    decreases ds.len(),
{
    if i < ds.len() - 1 {
        lemma_functions_linked(m, id, ds.drop_last(), i);
        assert(ds.drop_last()[i] == ds[i]);
    }
}

proof fn lemma_natives_keep(
    m: Map<KeyView, Seq<u8>>,
    id: Option<ModuleView>,
    natives: Map<Seq<char>, crate::module_env::BindingView>,
    ds: Seq<crate::ast::ExternFnDef>,
    k: KeyView,
)
    requires
        m.contains_key(k),
    ensures
        with_natives(m, id, natives, ds) matches Ok(n) ==> n.hashes.contains_key(k),
    decreases ds.len(),
{
    if ds.len() > 0 {
        lemma_natives_keep(m, id, natives, ds.drop_last(), k);
    }
}

proof fn lemma_symbols_keep(m: Map<KeyView, Seq<u8>>, symbols: Seq<Seq<char>>, k: KeyView)
    requires
        m.contains_key(k),
    ensures
        with_symbols(m, symbols).contains_key(k),
    decreases symbols.len(),
{
    if symbols.len() > 0 {
        lemma_symbols_keep(m, symbols.drop_last(), k);
    }
}

proof fn lemma_symbols_linked(m: Map<KeyView, Seq<u8>>, symbols: Seq<Seq<char>>, i: int)
    requires
        0 <= i < symbols.len(),
    ensures
        with_symbols(m, symbols).contains_key(KeyView::Bare(symbols[i])),
    decreases symbols.len(),
{
    if i < symbols.len() - 1 {
        lemma_symbols_linked(m, symbols.drop_last(), i);
        assert(symbols.drop_last()[i] == symbols[i]);
    }
}

/// Every function and every default implementation of a module has a hash while
/// the module is compiled.
pub proof fn own_functions_are_linked(m: Module, o: OptionsView)
    requires
        linking(m, o) is Ok,
    ensures
        forall|i: int|
            0 <= i < all_functions(m.items@).len() ==> linking(
                m,
                o,
            )->Ok_0.hashes.contains_key(
                own_key(o.env.module_id, (#[trigger] all_functions(m.items@)[i]).name@),
            ),
        forall|i: int|
            0 <= i < ability_methods(all_abilities(m.items@)).len() ==> linking(
                m,
                o,
            )->Ok_0.hashes.contains_key(
                KeyView::Bare(
                    #[trigger] ability_symbols(ability_methods(all_abilities(m.items@)))[i],
                ),
            ),
{
    let items = m.items@;
    let id = o.env.module_id;
    let fs = all_functions(items);
    let first = with_functions(o.imported, id, fs);
    let n = with_natives(first, id, o.env.extern_natives, all_externs(items))->Ok_0;
    let symbols = ability_symbols(ability_methods(all_abilities(items)));
    let second = with_symbols(n.hashes, symbols);
    let last = impl_symbols(impl_methods(all_impls(items)))->Ok_0;
    assert forall|i: int| 0 <= i < fs.len() implies linking(m, o)->Ok_0.hashes.contains_key(
        own_key(id, (#[trigger] fs[i]).name@),
    ) by {
        let k = own_key(id, fs[i].name@);
        lemma_functions_linked(o.imported, id, fs, i);
        lemma_natives_keep(first, id, o.env.extern_natives, all_externs(items), k);
        lemma_symbols_keep(n.hashes, symbols, k);
        lemma_symbols_keep(second, last, k);
    }
    assert forall|i: int| 0 <= i < symbols.len() implies linking(m, o)->Ok_0.hashes.contains_key(
        KeyView::Bare(#[trigger] symbols[i]),
    ) by {
        lemma_symbols_linked(n.hashes, symbols, i);
        lemma_symbols_keep(second, last, KeyView::Bare(symbols[i]));
    }
}

// ── compiling a module ──────────────────────────────────────────────────────

/// The symbolic form of a module. It has no migrations: no instruction of a body
/// records one. A caller that knows the migrations of a module puts them into the
/// form, and they are kept and assembled with it.
pub fn compile_to_form(module: &Module, options: CompileOptions) -> (r: Result<
    AssembleInputs,
    CompileError,
>)
    ensures
        match symbolic_form(*module, options@) {
            Ok(form) => r matches Ok(inputs) && inputs@ == form && one_hash_each(
                named(inputs.native_names@),
            ),
            Err(e) => r matches Err(f) && f@ == e,
        },
{
    let ghost o = options@;
    let ghost items = module.items@;
    let CompileOptions { source, source_file, imported_hashes, env } = options;
    let ghost id = env@.module_id;
    let functions = functions_of(&module.items);
    let externs = externs_of(&module.items);
    let consts = consts_of(&module.items);
    let enums = enums_of(&module.items);
    let structs = structs_of(&module.items);
    let abilities = abilities_of(&module.items);
    let impls = impls_of(&module.items);
    let ability_impls = ability_methods_of(&abilities);
    let impl_fns = impl_methods_of(&impls);
    let mut t = ModuleTables::new(None);
    let mut hashes: NameTable<Digest> = match imported_hashes {
        Some(h) => h,
        None => NameTable::new(),
    };
    assert(key_hashes(hashes@) =~= o.imported);
    link_functions(&mut hashes, &env.module_id, &functions);
    let (native_objects, native_names) = link_natives(
        &mut hashes,
        &env.module_id,
        &env.extern_natives,
        &externs,
    )?;
    let default_symbols = ability_symbols_of(&ability_impls);
    link_symbols(&mut hashes, &default_symbols);
    let method_symbols = impl_symbols_of(&impl_fns)?;
    link_symbols(&mut hashes, &method_symbols);
    proof {
        own_functions_are_linked(*module, o);
    }
    let ghost linked = linking(*module, o)->Ok_0;
    assert(key_hashes(hashes@) == linked.hashes);
    let values = const_values_of(&env.module_id, &consts);
    let (mut const_table, const_object_map) = finalize_const_values(&values);
    let const_name_list = const_names_of(&env.module_id, &consts, &const_table);
    extend_hashes(&mut const_table, &env.foreign_const_hashes);
    register_imported_enums(&mut t.enums, &env.imported_enums);
    register_enums(&mut t.enums, &enums);
    register_foreign_variants(&mut t.foreign_variants, &env.foreign_enum_variants);
    register_imported_unit_structs(&mut t.unit_structs, &env.foreign_unit_structs);
    register_unit_structs(&mut t.unit_structs, &env.module_id, &structs);
    t.const_hashes = const_table;
    register_foreign_abilities(&mut t.foreign_abilities, &env.foreign_abilities);
    register_abilities(&mut t.abilities, &abilities)?;
    t.function_hashes = hashes;
    t.module_id = env.module_id;
    let ghost tables = tables_of(*module, o.env, linked.hashes)->Ok_0;
    assert(t@ == tables);
    let mut ctx = ModuleContext::new();
    assert forall|i: int| 0 <= i < functions@.len() implies function_hash(
        t@,
        own_key(t@.module_id, (#[trigger] functions@[i]).name@),
    ) is Some by {
        assert(referents(functions@)[i] == *functions@[i]);
        assert(all_functions(items)[i].name@ == functions@[i].name@);
    }
    let mut compiled = compile_functions(&t, &functions, source, source_file, &mut ctx)?;
    let ghost a = function_bodies(tables, all_functions(items), o.origin)->Ok_0;
    compile_impl_methods(
        &t,
        &impl_fns,
        source,
        source_file,
        &mut compiled,
        &mut ctx,
        Ghost(a),
    )?;
    let ghost b = impl_bodies(tables, impl_methods(all_impls(items)), o.origin, a)->Ok_0;
    compile_ability_methods(
        &t,
        &ability_impls,
        source,
        source_file,
        &mut compiled,
        &mut ctx,
        Ghost(b),
    )?;
    let mut const_object_list: Vec<StoredObject> = Vec::new();
    assert(contents(const_object_list@).to_set() =~= Set::empty());
    list_objects(&mut const_object_list, &const_object_map);
    list_objects(&mut const_object_list, &ctx.const_objects);
    let r = AssembleInputs {
        compiled_functions: compiled,
        lambdas: ctx.lambdas,
        ability_impl_group_names: group_names_of(&ability_impls),
        const_objects: const_object_list,
        const_names: const_name_list,
        native_objects,
        native_names,
        migrations: Vec::new(),
        ability_checks: method_checks_of(&ability_impls),
    };
    proof {
        let form = symbolic_form(*module, o)->Ok_0;
        assert(r@.const_objects =~= form.const_objects);
        assert(r@.migrations =~= form.migrations);
    }
    Ok(r)
}

/// Compile a module with options.
pub fn compile_module_with_options(module: &Module, options: CompileOptions) -> (r: Result<
    CompiledModule,
    CompileError,
>)
    ensures
        compiles(*module, options@, r),
{
    let inputs = compile_to_form(module, options)?;
    proof {
        nodes_of_form(inputs);
    }
    assemble_module(inputs)
}

/// Compile a module that stands by itself.
pub fn compile_module(module: &Module) -> (r: Result<CompiledModule, CompileError>)
    ensures
        compiles(*module, plain_options(), r),
{
    compile_module_with_options(module, CompileOptions::default())
}

/// Compile a module that calls functions of other modules.
pub fn compile_module_with_imports(
    module: &Module,
    imported_hashes: NameTable<Digest>,
) -> (r: Result<CompiledModule, CompileError>)
    ensures
        compiles(
            *module,
            OptionsView { imported: key_hashes(imported_hashes@), ..plain_options() },
            r,
        ),
{
    let options = CompileOptions {
        source: None,
        source_file: None,
        imported_hashes: Some(imported_hashes),
        env: ModuleEnv::default(),
    };
    compile_module_with_options(module, options)
}

/// Compile a module with debug information.
pub fn compile_module_with_source(module: &Module, source: &str, source_file: &str) -> (r: Result<
    CompiledModule,
    CompileError,
>)
    ensures
        compiles(
            *module,
            OptionsView {
                origin: Origin { source: Some(source@), source_file: Some(source_file@) },
                ..plain_options()
            },
            r,
        ),
{
    let options = CompileOptions {
        source: Some(source),
        source_file: Some(source_file),
        imported_hashes: None,
        env: ModuleEnv::default(),
    };
    compile_module_with_options(module, options)
}

/// Compile a module that calls functions of other modules, with debug
/// information.
pub fn compile_module_with_imports_and_source(
    module: &Module,
    source: &str,
    source_file: &str,
    imported_hashes: NameTable<Digest>,
) -> (r: Result<CompiledModule, CompileError>)
    ensures
        compiles(
            *module,
            OptionsView {
                origin: Origin { source: Some(source@), source_file: Some(source_file@) },
                imported: key_hashes(imported_hashes@),
                ..plain_options()
            },
            r,
        ),
{
    let options = CompileOptions {
        source: Some(source),
        source_file: Some(source_file),
        imported_hashes: Some(imported_hashes),
        env: ModuleEnv::default(),
    };
    compile_module_with_options(module, options)
}

} // verus!
