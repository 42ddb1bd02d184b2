//! What compiled functions depend on, their constants refer to. So the dependencies
//! of a compiled module are always in order.

use vstd::prelude::*;

use crate::ast::{AbilityDef, AbilityMethod, Expr, FunctionDef, ImplDef, ImplMethod, Module};
use crate::bytecode::{
    constant_ref, constant_target, CompiledFunction, ConstantView, FunctionView,
};
use crate::compiler::assemble::{
    form_nodes, input_nodes, nodes_of_form, AssembleInputs, FormView,
};
use crate::compiler::code::{all_referred, dependencies_are_referred, referred, Op, Opcode};
use crate::compiler::codegen::expr_code;
use crate::compiler::context::{function_hash, impl_symbol, Produced, TablesView};
use crate::compiler::dicts::Gen;
use crate::compiler::entry::{
    ability_bodies, function_bodies, impl_bodies, linking, symbolic_form, tables_of, within,
    Bodies, OptionsView,
};
use crate::compiler::error::ErrorView;
use crate::compiler::functions::{
    ability_method_body, ability_method_signature, body_function, body_scope, function_body,
    function_signature, impl_method_body, impl_method_name, impl_method_signature, Origin,
    Signature,
};
use crate::compiler::graph::edge;
use crate::compiler::hash::{
    call_graph, can_store_all, dep_linked, deps_linked, deps_ordered, finalizable, finalizes,
    lemma_constant_edge, linked_dependencies_are_in_order, local_at, module_nodes, objects_ok,
    NodeView,
};
use crate::compiler::invariance::temps_differ;
use crate::compiler::items::{
    ability_methods, all_abilities, all_functions, all_impls, impl_methods,
};
use crate::compiler::module_output::{function_map, name_map, object_map, CompiledModule};
use crate::compiler::moving::{
    is_lambda_hash, moved_body, moved_lambdas, moved_tables, moves_well, settled, used,
};
use crate::compiler::prelink::{moved, moved_constant, moved_function};
use crate::compiler::rearranging::{
    names_differ, one_entry, reordered, reordered_functions_give_the_same_module,
};
use crate::compiler::relinking::{
    lemma_ability_bodies, lemma_function_bodies, lemma_impl_bodies, moved_functions,
};
use crate::compiler::tables::own_key;
use crate::digest::Digest;
use crate::fqn::KeyView;

verus! {

/// Whether the constants of a function refer to everything that it depends on.
pub open spec fn refers_to_all(f: FunctionView) -> bool {
    all_referred(f.constants, f.dependencies)
}

proof fn lemma_body(
    t: TablesView,
    sig: Signature,
    body: Expr,
    hash: Seq<u8>,
    name: Seq<char>,
    o: Origin,
    p: Produced,
)
    ensures
        body_function(t, sig, body, hash, name, o, p) matches Ok((f, _)) ==> refers_to_all(f)
            && f.hash == hash,
{
    if let Ok(scope) = body_scope(sig) {
        if let Ok((c, _)) = expr_code(t, body, Gen { scope, out: p }, true) {
            dependencies_are_referred(c.push(Op::Plain(Opcode::Return)));
        }
    }
}

/// Whether the constants of named functions refer to everything that these depend
/// on, and the functions stand under hashes of the tables.
spec fn all_refer(t: TablesView, b: Bodies) -> bool {
    forall|i: int|
        0 <= i < b.functions.len() ==> refers_to_all((#[trigger] b.functions[i]).1)
            && t.function_hashes.contains_value(b.functions[i].1.hash)
}

proof fn lemma_functions(t: TablesView, fs: Seq<FunctionDef>, o: Origin)
    ensures
        function_bodies(t, fs, o) matches Ok(b) ==> all_refer(t, b),
    decreases fs.len(),
{
    if fs.len() > 0 {
        let f = fs.last();
        lemma_functions(t, fs.drop_last(), o);
        if let Ok(a) = function_bodies(t, fs.drop_last(), o) {
            let p = within(a.out, f.name@);
            let key = own_key(t.module_id, f.name@);
            if let Some(h) = function_hash(t, key) {
                lemma_body(t, function_signature(f), f.body, h, f.name@, o, p);
                assert(t.function_hashes.contains_key(key) && t.function_hashes[key] == h);
            }
            assert(function_body(t, f, o, p) matches Ok((g, _)) ==> refers_to_all(g)
                && t.function_hashes.contains_value(g.hash));
        }
    }
}

proof fn lemma_impls(t: TablesView, ms: Seq<(ImplDef, ImplMethod)>, o: Origin, first: Bodies)
    requires
        all_refer(t, first),
    ensures
        impl_bodies(t, ms, o, first) matches Ok(b) ==> all_refer(t, b),
    decreases ms.len(),
{
    if ms.len() > 0 {
        let (d, m) = ms.last();
        lemma_impls(t, ms.drop_last(), o, first);
        if let Ok(a) = impl_bodies(t, ms.drop_last(), o, first) {
            if let Some(s) = m.resolved_symbol {
                let p = within(a.out, s@);
                if let Some(h) = function_hash(t, KeyView::Bare(s@)) {
                    let sig = impl_method_signature(d, m);
                    lemma_body(t, sig, m.body, h, impl_method_name(d, m), o, p);
                    let key = KeyView::Bare(s@);
                    assert(t.function_hashes.contains_key(key) && t.function_hashes[key] == h);
                }
                assert(impl_method_body(t, d, m, o, p) matches Ok((g, _)) ==> refers_to_all(g)
                    && t.function_hashes.contains_value(g.hash));
            }
        }
    }
}

proof fn lemma_abilities(
    t: TablesView,
    ms: Seq<(AbilityDef, AbilityMethod)>,
    o: Origin,
    first: Bodies,
)
    requires
        all_refer(t, first),
    ensures
        ability_bodies(t, ms, o, first) matches Ok(b) ==> all_refer(t, b),
    decreases ms.len(),
{
    if ms.len() > 0 {
        let (d, m) = ms.last();
        lemma_abilities(t, ms.drop_last(), o, first);
        if let Ok(a) = ability_bodies(t, ms.drop_last(), o, first) {
            let s = impl_symbol(d.uuid@, m.name@);
            let p = within(a.out, s);
            if let Some(h) = function_hash(t, KeyView::Bare(s)) {
                if let Some(body) = m.body {
                    let name = d.name@ + "::"@ + m.name@;
                    lemma_body(t, ability_method_signature(m), body, h, name, o, p);
                    let key = KeyView::Bare(s);
                    assert(t.function_hashes.contains_key(key) && t.function_hashes[key] == h);
                }
            }
            assert(ability_method_body(t, d, m, s, o, p) matches Ok((g, _)) ==> refers_to_all(g)
                && t.function_hashes.contains_value(g.hash));
        }
    }
}

/// The constants of every function and every lambda of a compiled module refer to
/// everything that it depends on.
pub proof fn compiled_functions_refer_to_all(m: Module, o: OptionsView, a: FormView)
    requires
        symbolic_form(m, o) == Ok::<FormView, ErrorView>(a),
    ensures
        forall|i: int| 0 <= i < a.functions.len() ==> refers_to_all((#[trigger] a.functions[i]).1),
        forall|i: int| 0 <= i < a.lambdas.len() ==> refers_to_all((#[trigger] a.lambdas[i]).2),
{
    let r = Map::<Seq<u8>, Seq<u8>>::empty();
    let n = linking(m, o)->Ok_0;
    let t = tables_of(m, o.env, n.hashes)->Ok_0;
    assert forall|x: Seq<u8>, y: Seq<u8>| #[trigger]
        used(t, x) && #[trigger] used(t, y) && moved(r, x) == moved(r, y) implies x == y by {}
    assert(moves_well(r, t));
    assert(moved_tables(r, t).function_hashes =~= t.function_hashes);
    let fs = all_functions(m.items@);
    let ims = impl_methods(all_impls(m.items@));
    let ams = ability_methods(all_abilities(m.items@));
    lemma_functions(t, fs, o.origin);
    lemma_function_bodies(r, t, fs, o.origin);
    let x = function_bodies(t, fs, o.origin)->Ok_0;
    lemma_impls(t, ims, o.origin, x);
    lemma_impl_bodies(r, t, ims, o.origin, x, x);
    let y = impl_bodies(t, ims, o.origin, x)->Ok_0;
    lemma_abilities(t, ams, o.origin, y);
    lemma_ability_bodies(r, t, ams, o.origin, y, y);
    let b = ability_bodies(t, ams, o.origin, y)->Ok_0;
    assert(moved_lambdas(r, b.out.lambdas, b.out.lambdas));
}

/// Whether no function stands under the hash of an object that a constant is.
pub open spec fn objects_apart(nodes: Seq<NodeView>) -> bool {
    forall|i: int, k: int|
        0 <= i < nodes.len() && 0 <= k < nodes[i].func.constants.len() ==> (
        #[trigger] nodes[i].func.constants[k] matches ConstantView::Object(h) ==> local_at(
            nodes,
            h,
        ) is None)
}

/// Every dependency of a compiled function on another of its module is a reference
/// of its constants, and so in order: a compiled module never fails to be finalized
/// for a dependency that is out of order.
pub proof fn compiled_dependencies_are_linked(m: Module, o: OptionsView, a: FormView)
    requires
        symbolic_form(m, o) == Ok::<FormView, ErrorView>(a),
        form_nodes(a).len() <= usize::MAX,
        objects_apart(form_nodes(a)),
    ensures
        deps_linked(form_nodes(a)),
        deps_ordered(form_nodes(a)),
        forall|i: int, h: Seq<u8>|
            0 <= i < form_nodes(a).len() && #[trigger] form_nodes(
                a,
            )[i].func.dependencies.contains(h) && local_at(form_nodes(a), h) is Some ==> edge(
                call_graph(form_nodes(a)),
                i,
                local_at(form_nodes(a), h)->0,
            ),
{
    compiled_functions_refer_to_all(m, o, a);
    let nodes = form_nodes(a);
    assert forall|i: int, h: Seq<u8>|
        0 <= i < nodes.len() && #[trigger] nodes[i].func.dependencies.contains(h) && local_at(
            nodes,
            h,
        ) is Some implies edge(call_graph(nodes), i, local_at(nodes, h)->0) by {
        let f = nodes[i].func;
        if i < a.functions.len() {
            assert(refers_to_all(a.functions[i].1));
        } else {
            assert(refers_to_all(a.lambdas[i - a.functions.len()].2));
        }
        let k = f.dependencies.index_of(h);
        assert(referred(f.constants, f.dependencies[k]));
        let c = choose|c: int|
            0 <= c < f.constants.len() && constant_target(#[trigger] f.constants[c]) == Some(h);
        assert(nodes[i].func.constants[c] == f.constants[c]);
        assert(constant_ref(f.constants[c]) == Some(h));
        lemma_constant_edge(nodes, i, c);
    }
    assert forall|i: int, k: int|
        0 <= i < nodes.len() && 0 <= k < nodes[i].func.dependencies.len() implies dep_linked(
        nodes,
        i,
        #[trigger] nodes[i].func.dependencies[k],
    ) by {
        assert(nodes[i].func.dependencies.contains(nodes[i].func.dependencies[k]));
    }
    linked_dependencies_are_in_order(nodes);
}

// ── what is not referred to ─────────────────────────────────────────────────

/// Whether nodes refer to a hash nowhere and do not stand under it.
pub open spec fn nowhere(nodes: Seq<NodeView>, h: Seq<u8>) -> bool {
    forall|i: int|
        0 <= i < nodes.len() ==> (#[trigger] nodes[i]).temp != h && without(nodes[i].func, h)
}

/// Whether a function does not refer to a hash.
pub open spec fn without(f: FunctionView, h: Seq<u8>) -> bool {
    !f.dependencies.contains(h) && forall|k: int|
        0 <= k < f.constants.len() ==> constant_ref(#[trigger] f.constants[k]) != Some(h)
}

/// A function that stays the same where a hash moves does not refer to the hash.
proof fn lemma_without(f: FunctionView, y: Seq<u8>)
    requires
        ({
            let g = moved_function(Map::empty().insert(y, y.push(0)), f);
            g.constants == f.constants && g.dependencies == f.dependencies
        }),
    ensures
        without(f, y),
{
    let z = y.push(0);
    let r = Map::<Seq<u8>, Seq<u8>>::empty().insert(y, z);
    let g = moved_function(r, f);
    assert(z.len() != y.len());
    if f.dependencies.contains(y) {
        let k = f.dependencies.index_of(y);
        assert(g.dependencies[k] == moved(r, y));
    }
    assert forall|k: int| 0 <= k < f.constants.len() implies constant_ref(
        #[trigger] f.constants[k],
    ) != Some(y) by {
        assert(g.constants[k] == moved_constant(r, f.constants[k]));
    }
}

/// Compiled code refers to nothing but what its tables hold: a hash that is not
/// used stands nowhere in a compiled module.
pub proof fn unused_hashes_stand_nowhere(m: Module, o: OptionsView, a: FormView, y: Seq<u8>)
    requires
        symbolic_form(m, o) == Ok::<FormView, ErrorView>(a),
        linking(m, o) matches Ok(n) && (tables_of(m, o.env, n.hashes) matches Ok(t) && !used(t, y)),
    ensures
        nowhere(form_nodes(a), y),
{
    let n = linking(m, o)->Ok_0;
    let t = tables_of(m, o.env, n.hashes)->Ok_0;
    let r = Map::<Seq<u8>, Seq<u8>>::empty().insert(y, y.push(0));
    assert forall|k: KeyView| #[trigger]
        t.function_hashes.contains_key(k) implies t.function_hashes[k] != y by {
        if t.function_hashes[k] == y {
            assert(t.function_hashes.contains_value(y));
        }
    }
    assert(moved_tables(r, t).function_hashes =~= t.function_hashes);
    assert forall|h: Seq<u8>| #[trigger] settled(t, h) implies !r.contains_key(h) by {
        assert(used(t, h));
    }
    assert(moves_well(r, t)) by {
        assert forall|p: Seq<u8>, q: Seq<u8>| #[trigger]
            used(t, p) && #[trigger] used(t, q) && moved(r, p) == moved(r, q) implies p == q by {}
    }
    let fs = all_functions(m.items@);
    let ims = impl_methods(all_impls(m.items@));
    let ams = ability_methods(all_abilities(m.items@));
    lemma_functions(t, fs, o.origin);
    lemma_function_bodies(r, t, fs, o.origin);
    let x = function_bodies(t, fs, o.origin)->Ok_0;
    lemma_impls(t, ims, o.origin, x);
    lemma_impl_bodies(r, t, ims, o.origin, x, x);
    let w = impl_bodies(t, ims, o.origin, x)->Ok_0;
    lemma_abilities(t, ams, o.origin, w);
    lemma_ability_bodies(r, t, ams, o.origin, w, w);
    let b = ability_bodies(t, ams, o.origin, w)->Ok_0;
    let nodes = form_nodes(a);
    assert forall|i: int| 0 <= i < nodes.len() implies (#[trigger] nodes[i]).temp != y && without(
        nodes[i].func,
        y,
    ) by {
        let f = nodes[i].func;
        if i < a.functions.len() {
            assert(t.function_hashes.contains_value(b.functions[i].1.hash));
            assert(used(t, f.hash));
            assert(moved_functions(r, b.functions)[i].1 == moved_function(r, f));
        } else {
            let k = i - a.functions.len();
            assert(is_lambda_hash(b.out.lambdas[k].0));
            assert(settled(t, a.lambdas[k].0));
            assert(used(t, a.lambdas[k].0));
            assert(moved_body(r, b.out.lambdas[k].2, b.out.lambdas[k].2));
        }
        lemma_without(f, y);
    }
}

// ── the order of functions ──────────────────────────────────────────────────

/// The order of the functions of a compiled module is of no account: in another
/// order they can be finalized too, to a module with the same objects, names, entry
/// point and hashes of functions.
pub proof fn compiled_functions_may_be_reordered(
    m: Module,
    o: OptionsView,
    inputs: AssembleInputs,
    gs: Seq<(String, CompiledFunction, bool)>,
    ks: Seq<(Digest, String, CompiledFunction)>,
    pf: Seq<int>,
    qf: Seq<int>,
    pl: Seq<int>,
    ql: Seq<int>,
    ha: Seq<Seq<u8>>,
    ma: CompiledModule,
    hb: Seq<Seq<u8>>,
    mb: CompiledModule,
)
    requires
        symbolic_form(m, o) == Ok::<FormView, ErrorView>(inputs@),
        reordered(inputs.compiled_functions@, inputs.lambdas@, gs, ks, pf, qf, pl, ql),
        input_nodes(inputs).len() <= usize::MAX,
        temps_differ(input_nodes(inputs)),
        names_differ(input_nodes(inputs)),
        one_entry(input_nodes(inputs)),
        objects_apart(input_nodes(inputs)),
        can_store_all(input_nodes(inputs)),
    ensures
        ({
            let na = input_nodes(inputs);
            let nb = module_nodes(gs, ks, inputs.ability_impl_group_names@);
            &&& finalizable(na)
            &&& finalizable(nb)
            &&& finalizes(na, ha, ma) && finalizes(nb, hb, mb) ==> {
                &&& object_map(ma.objects@).dom() == object_map(mb.objects@).dom()
                &&& objects_ok(na, ha, object_map(mb.objects@))
                &&& function_map(ma.functions@).dom() == function_map(mb.functions@).dom()
                &&& name_map(ma.function_names@) == name_map(mb.function_names@)
                &&& ma.entry_point is Some == mb.entry_point is Some
                &&& ma.entry_point is Some ==> ma.entry_point->0@ == mb.entry_point->0@
            }
        }),
{
    nodes_of_form(inputs);
    compiled_dependencies_are_linked(m, o, inputs@);
    reordered_functions_give_the_same_module(
        inputs.compiled_functions@,
        inputs.lambdas@,
        gs,
        ks,
        inputs.ability_impl_group_names@,
        pf,
        qf,
        pl,
        ql,
        ha,
        ma,
        hb,
        mb,
    );
}

} // verus!
