//! Compiling a module and keeping its pre-link form.
//!
//! The module is assembled from the form that is kept, so assembling the form
//! again later gives the same module.

use vstd::prelude::*;

use crate::ast::Module;
use crate::compiler::assemble::{
    assemble_fault, assemble_module, assembled, bound, check_views, function_entries, input_nodes,
    named, text_map, unambiguous, AbilityMethodCheck, AssembleInputs, FormView,
};
use crate::compiler::context::lambda_views;
use crate::compiler::entry::{compile_to_form, symbolic_form, CompileOptions};
use crate::compiler::error::CompileError;
use crate::compiler::hash::{finalizable, finalizes};
use crate::compiler::module_output::{
    copy_migrations, migration_views, name_map, CompiledModule, MigrationRecord,
};
use crate::compiler::prelink::{
    bound_texts, by_hash, inputs_of, lists_by_hash, PrelinkFn, PrelinkLambda, PrelinkModule,
};
use crate::digest::Digest;
use crate::object::StoredObject;
use crate::ordmap::{entries_map, entry_found, has_key, key_position, keys_increase, Key, OrdMap};
use crate::sorting::sorted;
use crate::text::owned;
use crate::wire::{contents, Wire};

verus! {

broadcast use vstd::string::group_string_axioms;

/// Whether functions of a pre-link form are those of a symbolic form.
pub open spec fn same_functions(
    fs: Seq<PrelinkFn>,
    want: Seq<(Seq<char>, crate::bytecode::FunctionView, bool)>,
) -> bool {
    fs.len() == want.len() && forall|i: int|
        0 <= i < fs.len() ==> ((#[trigger] fs[i]).name@, fs[i].func@, fs[i].is_main) == want[i]
}

/// Whether lambdas of a pre-link form are those of a symbolic form.
pub open spec fn same_lambdas(
    ls: Seq<PrelinkLambda>,
    want: Seq<(Seq<u8>, Seq<char>, crate::bytecode::FunctionView)>,
) -> bool {
    ls.len() == want.len() && forall|i: int|
        0 <= i < ls.len() ==> ((#[trigger] ls[i]).temp_hash@, ls[i].parent@, ls[i].func@)
            == want[i]
}

/// Whether a list holds the given objects, one for each hash, in the order of
/// the hashes.
pub open spec fn lists_objects(
    list: Seq<StoredObject>,
    objects: Set<crate::object::ObjectView>,
) -> bool {
    exists|all: Seq<StoredObject>|
        contents(all).to_set() == objects && #[trigger] lists_by_hash(
            contents(list),
            by_hash(all),
        )
}

/// Whether a pre-link form holds what a symbolic form says, in its own order.
pub open spec fn captures(p: PrelinkModule, form: FormView) -> bool {
    &&& exists|fs: Seq<PrelinkFn>| #[trigger]
        sorted(fs) == p.functions@ && same_functions(fs, form.functions)
    &&& exists|ls: Seq<PrelinkLambda>| #[trigger]
        sorted(ls) == p.lambdas@ && same_lambdas(ls, form.lambdas)
    &&& keys_increase(p.ability_group_names@)
    &&& bound_texts(p.ability_group_names.content()) == form.group_names
    &&& lists_objects(p.const_objects@, form.const_objects)
    &&& keys_increase(p.const_names@)
    &&& bound(named(p.const_names@)) == form.const_names
    &&& lists_objects(p.native_objects@, form.native_objects)
    &&& keys_increase(p.native_names@)
    &&& bound(named(p.native_names@)) == form.native_names
    &&& exists|ms: Seq<MigrationRecord>| #[trigger]
        sorted(ms) == p.migrations@ && migration_views(ms) == form.migrations
    &&& exists|cs: Seq<AbilityMethodCheck>| #[trigger]
        sorted(cs) == p.ability_checks@ && check_views(cs) == form.checks
    &&& p.signatures@ == Seq::<(String, String)>::empty()
}

proof fn lemma_entries_grow<V>(s: Seq<(String, V)>)
    requires
        keys_increase(s),
        s.len() > 0,
    ensures
        keys_increase(s.drop_last()),
        entries_map(s) == entries_map(s.drop_last()).insert(s.last().0@, s.last().1),
{
    let t = s.drop_last();
    assert(keys_increase(t));
    assert forall|m: Seq<char>| has_key(s, m) <==> has_key(t, m) || m == s.last().0@ by {
        if has_key(s, m) {
            let i = key_position(s, m);
            if i < t.len() {
                assert(t[i].0.model() == m);
            }
        }
        if has_key(t, m) {
            let i = key_position(t, m);
            assert(s[i].0.model() == m);
        }
        if m == s.last().0@ {
            assert(s[s.len() - 1].0.model() == m);
        }
    }
    let a = entries_map(s);
    let b = entries_map(t).insert(s.last().0@, s.last().1);
    assert forall|m: Seq<char>| a.contains_key(m) implies a[m] == b[m] by {
        let i = key_position(s, m);
        assert(s[i].0.model() == m);
        entry_found(s, i);
        entry_found(s, s.len() - 1);
        if i < t.len() {
            assert(t[i].0.model() == m);
            entry_found(t, i);
        }
    }
    assert(a =~= b);
}

pub(crate) proof fn lemma_bound_entries(s: Seq<(String, Digest)>)
    requires
        keys_increase(s),
    ensures
        bound(named(s)) == name_map(entries_map(s)),
    decreases s.len(),
{
    if s.len() > 0 {
        lemma_entries_grow(s);
        lemma_bound_entries(s.drop_last());
        assert(named(s).drop_last() =~= named(s.drop_last()));
        assert(name_map(entries_map(s)) =~= name_map(entries_map(s.drop_last())).insert(
            s.last().0@,
            s.last().1@,
        ));
    } else {
        assert(name_map(entries_map(s)) =~= Map::empty());
    }
}

/// What pairs of text say.
pub open spec fn text_pairs(s: Seq<(String, String)>) -> Seq<(Seq<char>, Seq<char>)> {
    Seq::new(s.len(), |i: int| (s[i].0@, s[i].1@))
}

pub(crate) proof fn lemma_bound_text_entries(s: Seq<(String, String)>)
    requires
        keys_increase(s),
    ensures
        bound_texts(text_pairs(s)) == text_map(entries_map(s)),
    decreases s.len(),
{
    if s.len() > 0 {
        lemma_entries_grow(s);
        lemma_bound_text_entries(s.drop_last());
        assert(text_pairs(s).drop_last() =~= text_pairs(s.drop_last()));
        assert(text_map(entries_map(s)) =~= text_map(entries_map(s.drop_last())).insert(
            s.last().0@,
            s.last().1@,
        ));
    } else {
        assert(text_map(entries_map(s)) =~= Map::empty());
    }
}

/// The map that names and hashes make up.
fn bind_hashes(s: &Vec<(String, Digest)>) -> (r: OrdMap<String, Digest>)
    ensures
        name_map(r@) == bound(named(s@)),
{
    let ghost all = named(s@);
    let mut m: OrdMap<String, Digest> = OrdMap::new();
    let mut i: usize = 0;
    assert(all.take(0) =~= seq![]);
    assert(name_map(m@) =~= Map::empty());
    while i < s.len()
        invariant
            i <= s@.len(),
            all == named(s@),
            name_map(m@) == bound(all.take(i as int)),
        decreases s@.len() - i,
    {
        assert(all.take(i + 1).drop_last() =~= all.take(i as int));
        let ghost was = name_map(m@);
        m.insert(owned(s[i].0.as_str()), s[i].1);
        i = i + 1;
        assert(name_map(m@) =~= bound(all.take(i as int)));
    }
    assert(all.take(all.len() as int) =~= all);
    m
}

/// The pre-link form of a symbolic form.
pub fn capture(inputs: &AssembleInputs) -> (r: PrelinkModule)
    ensures
        captures(r, inputs@),
{
    let mut functions: Vec<PrelinkFn> = Vec::new();
    let mut i: usize = 0;
    while i < inputs.compiled_functions.len()
        invariant
            i <= inputs.compiled_functions@.len(),
            functions@.len() == i,
            forall|k: int|
                0 <= k < i ==> (
                    (#[trigger] functions@[k]).name@,
                    functions@[k].func@,
                    functions@[k].is_main,
                ) == function_entries(inputs.compiled_functions@)[k],
        decreases inputs.compiled_functions@.len() - i,
    {
        let f = &inputs.compiled_functions[i];
        functions.push(
            PrelinkFn { name: owned(f.0.as_str()), is_main: f.2, func: f.1.copy() },
        );
        i = i + 1;
    }
    let mut lambdas: Vec<PrelinkLambda> = Vec::new();
    let mut k: usize = 0;
    while k < inputs.lambdas.len()
        invariant
            k <= inputs.lambdas@.len(),
            lambdas@.len() == k,
            forall|j: int|
                0 <= j < k ==> (
                    (#[trigger] lambdas@[j]).temp_hash@,
                    lambdas@[j].parent@,
                    lambdas@[j].func@,
                ) == lambda_views(inputs.lambdas@)[j],
        decreases inputs.lambdas@.len() - k,
    {
        let l = &inputs.lambdas[k];
        lambdas.push(
            PrelinkLambda { temp_hash: l.0, parent: owned(l.1.as_str()), func: l.2.copy() },
        );
        k = k + 1;
    }
    let ghost fs = functions@;
    let ghost ls = lambdas@;
    let checks = crate::compiler::prelink::copy_checks(&inputs.ability_checks);
    let ghost cs = checks@;
    let migrations = copy_migrations(&inputs.migrations);
    let ghost ms = migrations@;
    let const_names = bind_hashes(&inputs.const_names);
    let native_names = bind_hashes(&inputs.native_names);
    let r = PrelinkModule::from_compile(
        functions,
        lambdas,
        &inputs.ability_impl_group_names,
        &inputs.const_objects,
        &const_names,
        &inputs.native_objects,
        &native_names,
        migrations,
        checks,
    );
    let group_items = inputs.ability_impl_group_names.items();
    let const_items = const_names.items();
    let native_items = native_names.items();
    proof {
        let form = inputs@;
        lemma_bound_text_entries(group_items@);
        assert(r.ability_group_names.content() =~= text_pairs(group_items@));
        lemma_bound_entries(const_items@);
        lemma_bound_entries(native_items@);
        assert(sorted(fs) == r.functions@ && same_functions(fs, form.functions));
        assert(sorted(ls) == r.lambdas@ && same_lambdas(ls, form.lambdas));
        assert(sorted(cs) == r.ability_checks@ && check_views(cs) == form.checks);
        assert(contents(inputs.const_objects@).to_set() == form.const_objects);
        assert(lists_by_hash(contents(r.const_objects@), by_hash(inputs.const_objects@)));
        assert(contents(inputs.native_objects@).to_set() == form.native_objects);
        assert(lists_by_hash(contents(r.native_objects@), by_hash(inputs.native_objects@)));
        assert(sorted(ms) == r.migrations@ && migration_views(ms) == form.migrations);
    }
    r
}

/// Whether a module is one that a pre-link form becomes.
pub open spec fn relinks(p: PrelinkModule, m: CompiledModule) -> bool {
    exists|inputs: AssembleInputs, h: Seq<Seq<u8>>, base: CompiledModule|
        #![trigger finalizes(input_nodes(inputs), h, base), assembled(inputs, base, m)]
        inputs_of(p, inputs) && finalizable(input_nodes(inputs)) && finalizes(
            input_nodes(inputs),
            h,
            base,
        ) && assembled(inputs, base, m) && unambiguous(check_views(inputs.ability_checks@), name_map(m.function_names@))
}

/// Compile a module, and keep the pre-link form that it is assembled from.
pub fn compile_module_capturing(module: &Module, options: CompileOptions) -> (r: Result<
    (CompiledModule, PrelinkModule),
    CompileError,
>)
    ensures
        match symbolic_form(*module, options@) {
            Err(e) => r matches Err(f) && f@ == e,
            Ok(form) => match r {
                Ok((m, p)) => captures(p, form) && relinks(p, m),
                Err(e) => exists|p: PrelinkModule, inputs: AssembleInputs|
                    captures(p, form) && #[trigger] inputs_of(p, inputs) && assemble_fault(
                        inputs,
                        e@,
                    ),
            },
        },
{
    let inputs = compile_to_form(module, options)?;
    let prelink = capture(&inputs);
    let again = prelink.to_assemble_inputs();
    let ghost g = again;
    assert(inputs_of(prelink, g));
    let m = assemble_module(again)?;
    Ok((m, prelink))
}

} // verus!
