//! A module in which a function has another name: every function stands under the
//! hash that it had.

use vstd::prelude::*;

use crate::ast::{
    AbilityDef, AbilityMethod, Expr, ExternFnDef, FunctionDef, ImplDef, ImplMethod, Module,
};
use crate::bytecode::{constant_ref, ConstantView, FunctionView};
use crate::compiler::assemble::{
    assembled, form_nodes, hashed, input_nodes, named, nodes_of_form, AssembleInputs, FormView,
};
use crate::compiler::code::{Op, Opcode};
use crate::compiler::codegen::{expr_code, with_params};
use crate::compiler::context::{
    bound_to, empty_scope, function_hash, impl_symbol, with_local, Produced, Scope, TablesView,
};
use crate::compiler::dicts::{dict_name, Gen};
use crate::compiler::entry::{
    ability_bodies, ability_symbols, compiles, function_bodies, group_names, impl_bodies,
    impl_symbols, linking, method_checks, symbolic_form, tables_of, with_body, within, Bodies,
    OptionsView,
};
use crate::compiler::error::ErrorView;
use crate::compiler::functions::{
    ability_method_body, ability_method_signature, body_function, body_scope, function_body,
    function_signature, impl_method_body, impl_method_name, impl_method_signature, with_dicts,
    Origin, Signature,
};
use crate::compiler::graph::{edge, on_cycle};
use crate::compiler::hash::{
    call_graph, finalizes, lemma_local_at, local_at, ref_nodes, temporary_hash, NodeView,
};
use crate::compiler::invariance::{
    alike, constant_alike, function_alike, own_references_alike, ref_alike, temps_differ,
    temps_in_order,
};
use crate::compiler::items::{
    ability_methods, all_abilities, all_consts, all_enums, all_externs, all_functions, all_impls,
    all_structs, impl_methods,
};
use crate::compiler::module_output::{
    function_map, kept, name_map, object_map, CompiledModule,
};
use crate::compiler::linked::{
    compiled_dependencies_are_linked, nowhere, objects_apart, unused_hashes_stand_nowhere,
};
use crate::compiler::moving::{
    lemma_lowered, moved_body, moved_out, moved_tables, moves_well, settled, used,
};
use crate::compiler::prelink::{moved, moved_constant, moved_function};
use crate::compiler::rearranging::{
    is_named, lemma_final_names, modules_forget_order_and_names, names_differ,
};
use crate::compiler::recompiling::lemma_hash;
use crate::compiler::relinking::lemma_body_scope;
use crate::compiler::renaming::{
    avoids, avoids_name, lemma_expr, lemma_params, lemma_set, lemma_with_local, ordinary,
    params_avoid, renamed_expr, renamed_out, renamed_text, renames, scope_avoids, Renaming,
};
use crate::compiler::tables::{
    own_key, with_abilities, with_functions, with_natives, with_symbols, Natives,
};
use crate::fqn::{KeyView, ModuleView};
use crate::module_env::BindingView;
use crate::object::ObjectView;
use crate::wire::contents;

verus! {

broadcast use {
    crate::compiler::moving::lemma_matching_add,
    crate::compiler::moving::lemma_matching_push,
};

// ── functions ───────────────────────────────────────────────────────────────

/// How the temporary hash of the function moves.
pub open spec fn moving(d: Renaming) -> Map<Seq<u8>, Seq<u8>> {
    Map::empty().insert(temporary_hash(d.old_name), temporary_hash(d.new_name))
}

/// Whether a function is another with the hashes moved. Its own hash and what a
/// debugger knows of it may be any.
pub open spec fn same_code(r: Map<Seq<u8>, Seq<u8>>, f: FunctionView, g: FunctionView) -> bool {
    (FunctionView { hash: g.hash, debug: g.debug, ..moved_function(r, f) }) == g
}

/// Whether a function that is compiled and what is produced besides are the same
/// but for the name of the function, or the same error.
pub open spec fn renamed_result(
    d: Renaming,
    x: Result<(FunctionView, Produced), ErrorView>,
    y: Result<(FunctionView, Produced), ErrorView>,
) -> bool {
    match x {
        Err(e) => y == Err::<(FunctionView, Produced), ErrorView>(e),
        Ok((f, p)) => y matches Ok((g, q)) && same_code(moving(d), f, g) && g.hash == moved(
            moving(d),
            f.hash,
        ) && moved_out(moving(d), renamed_out(d, p), q),
    }
}

proof fn lemma_dict_params(d: Renaming, s: Scope, from: nat, ds: Seq<(Seq<char>, Seq<char>)>)
    requires
        scope_avoids(d, s),
        forall|i: nat| avoids_name(d, #[trigger] dict_name(i)),
    ensures
        with_dicts(s, from, ds) matches Ok(now) ==> scope_avoids(d, now),
    decreases ds.len(),
{
    if ds.len() > 0 {
        lemma_dict_params(d, s, from, ds.drop_last());
        if let Ok(b) = with_dicts(s, from, ds.drop_last()) {
            lemma_set(d, b.local_names, dict_name((from + ds.len() - 1) as nat), b.next_local);
        }
    }
}

proof fn lemma_scope(d: Renaming, t: TablesView, u: TablesView, sig: Signature)
    requires
        renames(d, t, u),
        params_avoid(d, sig.params),
    ensures
        body_scope(sig) matches Ok(s) ==> scope_avoids(d, s),
{
    assert(scope_avoids(d, empty_scope()));
    let first = match sig.receiver {
        Some(id) => {
            lemma_with_local(d, empty_scope(), id, "self"@);
            with_local(empty_scope(), id, "self"@)
        },
        None => Ok(empty_scope()),
    };
    if let Ok(s) = first {
        lemma_params(d, s, sig.params);
        if let Ok(p) = with_params(s, sig.params) {
            lemma_dict_params(d, p, 0, sig.dicts);
        }
    }
}

proof fn lemma_body(
    d: Renaming,
    t: TablesView,
    u: TablesView,
    sig: Signature,
    a: Expr,
    b: Expr,
    hash: Seq<u8>,
    x: Seq<char>,
    y: Seq<char>,
    o: Origin,
    p: Produced,
    q: Produced,
)
    requires
        renames(d, t, u),
        moves_well(moving(d), u),
        renamed_expr(d, a, b),
        params_avoid(d, sig.params),
        moved_out(moving(d), renamed_out(d, p), q),
    ensures
        renamed_result(
            d,
            body_function(t, sig, a, hash, x, o, p),
            body_function(
                moved_tables(moving(d), u),
                sig,
                b,
                moved(moving(d), hash),
                y,
                o,
                q,
            ),
        ),
{
    let r = moving(d);
    let v = moved_tables(r, u);
    lemma_scope(d, t, u, sig);
    lemma_body_scope(sig);
    if let Ok(scope) = body_scope(sig) {
        let g = Gen { scope, out: p };
        let h = Gen { scope, out: renamed_out(d, p) };
        let k = Gen { scope, out: q };
        lemma_expr(d, t, u, a, b, true, g);
        crate::compiler::recompiling::lemma_expr(r, u, b, true, h, k);
        if let Ok((c, _)) = expr_code(t, a, g, true) {
            let (e, _) = expr_code(v, b, k, true)->Ok_0;
            let ends = Op::Plain(Opcode::Return);
            lemma_lowered(r, u, c.push(ends), e.push(ends));
            if let Ok((f, _)) = body_function(t, sig, a, hash, x, o, p) {
                let (f2, _) = body_function(v, sig, b, moved(r, hash), y, o, q)->Ok_0;
                assert(f2.constants =~= moved_function(r, f).constants);
                assert(f2.dependencies =~= moved_function(r, f).dependencies);
            }
        }
    }
}

/// Whether a named function is another with the new name.
pub open spec fn renamed_entry(
    d: Renaming,
    a: (Seq<char>, FunctionView, bool),
    b: (Seq<char>, FunctionView, bool),
) -> bool {
    &&& b.0 == renamed_text(d, a.0)
    &&& a.0 != d.new_name
    &&& a.0 == d.old_name ==> a.1.hash == temporary_hash(d.old_name)
    &&& same_code(moving(d), a.1, b.1)
    &&& b.1.hash == moved(moving(d), a.1.hash)
}

/// Whether functions are the same but for the name of the function, or the same
/// error.
pub open spec fn renamed_bodies(
    d: Renaming,
    x: Result<Bodies, ErrorView>,
    y: Result<Bodies, ErrorView>,
) -> bool {
    match x {
        Err(e) => y == Err::<Bodies, ErrorView>(e),
        Ok(a) => {
            &&& y is Ok
            &&& a.functions.len() == y->Ok_0.functions.len()
            &&& forall|i: int|
                0 <= i < a.functions.len() ==> renamed_entry(
                    d,
                    #[trigger] a.functions[i],
                    y->Ok_0.functions[i],
                )
            &&& moved_out(moving(d), renamed_out(d, a.out), y->Ok_0.out)
        },
    }
}

proof fn lemma_with_body(
    d: Renaming,
    a: Bodies,
    b: Bodies,
    name: Seq<char>,
    x: (bool, Result<(FunctionView, Produced), ErrorView>),
    y: (bool, Result<(FunctionView, Produced), ErrorView>),
)
    requires
        renamed_bodies(d, Ok(a), Ok(b)),
        renamed_result(d, x.1, y.1),
        name != d.new_name,
        x.1 matches Ok((f, _)) ==> (name == d.old_name ==> f.hash == temporary_hash(d.old_name)),
    ensures
        renamed_bodies(
            d,
            with_body(a, name, x.0, x.1),
            with_body(b, renamed_text(d, name), y.0, y.1),
        ),
{
    if let Ok((f, _)) = x.1 {
        let (g, _) = y.1->Ok_0;
        let s = a.functions.push((name, f, x.0));
        let t = b.functions.push((renamed_text(d, name), g, y.0));
        assert forall|i: int| 0 <= i < s.len() implies renamed_entry(d, #[trigger] s[i], t[i]) by {
            if i < a.functions.len() {
                assert(renamed_entry(d, a.functions[i], b.functions[i]));
            }
        }
    }
}

/// What a key meant, its renamed key means with the hash moved.
proof fn lemma_key(d: Renaming, t: TablesView, u: TablesView, k: KeyView)
    requires
        renames(d, t, u),
        avoids(d, k) || k == d.from,
    ensures
        ({
            let now = if k == d.from {
                d.to
            } else {
                k
            };
            match function_hash(t, k) {
                Some(h) => function_hash(moved_tables(moving(d), u), now) == Some(
                    moved(moving(d), h),
                ),
                None => function_hash(moved_tables(moving(d), u), now) is None,
            }
        }),
{
    let now = if k == d.from {
        d.to
    } else {
        k
    };
    assert(function_hash(u, now) == function_hash(t, k));
    lemma_hash(moving(d), u, now);
}

/// Whether the keys are those of a function of a module, whose name is not the one
/// that stands for no function.
pub open spec fn keys_of_module(d: Renaming, id: Option<ModuleView>) -> bool {
    &&& d.from == own_key(id, d.old_name)
    &&& d.to == own_key(id, d.new_name)
    &&& d.old_name != "__unknown__"@
}

/// The keys of different functions differ.
proof fn lemma_own_key(d: Renaming, id: Option<ModuleView>, name: Seq<char>)
    requires
        keys_of_module(d, id),
    ensures
        own_key(id, name) == d.from <==> name == d.old_name,
        own_key(id, name) == d.to <==> name == d.new_name,
{
    if let Some(_) = id {
        if let KeyView::Item(f) = own_key(id, name) {
            assert(f.ident[0] == name);
            assert(d.from->Item_0.ident[0] == d.old_name);
            assert(d.to->Item_0.ident[0] == d.new_name);
        }
    }
}

/// Whether functions are others in which the function has its new name.
pub open spec fn renamed_functions(d: Renaming, s: Seq<FunctionDef>, t: Seq<FunctionDef>) -> bool {
    s.len() == t.len() && forall|i: int|
        0 <= i < s.len() ==> renamed_function(d, #[trigger] s[i], t[i])
}

/// Whether a function is another in which the function has its new name.
pub open spec fn renamed_function(d: Renaming, a: FunctionDef, b: FunctionDef) -> bool {
    &&& b.name@ == renamed_text(d, a.name@)
    &&& a.name@ != d.new_name
    &&& b.name_span == a.name_span
    &&& b.params == a.params
    &&& b.type_params == a.type_params
    &&& params_avoid(d, a.params@)
    &&& renamed_expr(d, a.body, b.body)
}

proof fn lemma_function_bodies(
    d: Renaming,
    t: TablesView,
    u: TablesView,
    fs: Seq<FunctionDef>,
    gs: Seq<FunctionDef>,
    o: Origin,
)
    requires
        renames(d, t, u),
        moves_well(moving(d), u),
        keys_of_module(d, t.module_id),
        function_hash(t, d.from) == Some(temporary_hash(d.old_name)),
        renamed_functions(d, fs, gs),
    ensures
        renamed_bodies(
            d,
            function_bodies(t, fs, o),
            function_bodies(moved_tables(moving(d), u), gs, o),
        ),
    decreases fs.len(),
{
    let v = moved_tables(moving(d), u);
    if fs.len() > 0 {
        let f = fs.last();
        let g = gs.last();
        let rest = fs.drop_last();
        let others = gs.drop_last();
        assert(renamed_function(d, fs[fs.len() - 1], gs[fs.len() - 1]));
        assert forall|i: int| 0 <= i < rest.len() implies renamed_function(
            d,
            #[trigger] rest[i],
            others[i],
        ) by {
            assert(renamed_function(d, fs[i], gs[i]));
        }
        lemma_function_bodies(d, t, u, rest, others, o);
        if let Ok(a) = function_bodies(t, rest, o) {
            let b = function_bodies(v, others, o)->Ok_0;
            let key = own_key(t.module_id, f.name@);
            let p = within(a.out, f.name@);
            let q = within(b.out, g.name@);
            assert(moved_out(moving(d), renamed_out(d, p), q));
            lemma_own_key(d, t.module_id, f.name@);
            lemma_key(d, t, u, key);
            if let Some(h) = function_hash(t, key) {
                let sig = function_signature(f);
                lemma_body(d, t, u, sig, f.body, g.body, h, f.name@, g.name@, o, p, q);
            }
            let x = function_body(t, f, o, p);
            let y = function_body(v, g, o, q);
            assert(renamed_result(d, x, y));
            lemma_with_body(
                d,
                a,
                b,
                f.name@,
                (f.name@ == "run"@, x),
                (g.name@ == "run"@, y),
            );
        }
    } else {
        let p = function_bodies(t, fs, o)->Ok_0.out;
        assert(renamed_out(d, p).lambdas =~= p.lambdas);
    }
}

/// Whether a method's symbol is neither key and neither name.
pub open spec fn symbol_avoids(d: Renaming, s: Seq<char>) -> bool {
    avoids_name(d, s) && s != d.old_name && s != d.new_name
}

/// Whether methods of impls are others in which the function has its new name.
pub open spec fn renamed_impls(
    d: Renaming,
    s: Seq<(ImplDef, ImplMethod)>,
    t: Seq<(ImplDef, ImplMethod)>,
) -> bool {
    s.len() == t.len() && forall|i: int|
        0 <= i < s.len() ==> renamed_impl(d, #[trigger] s[i], t[i])
}

/// Whether a method of an impl is another in which the function has its new name.
pub open spec fn renamed_impl(
    d: Renaming,
    a: (ImplDef, ImplMethod),
    b: (ImplDef, ImplMethod),
) -> bool {
    &&& b.1.resolved_symbol == a.1.resolved_symbol
    &&& a.1.resolved_symbol matches Some(s) ==> symbol_avoids(d, s@)
    &&& b.1.span == a.1.span
    &&& impl_method_signature(b.0, b.1) == impl_method_signature(a.0, a.1)
    &&& impl_method_name(b.0, b.1) == impl_method_name(a.0, a.1)
    &&& params_avoid(d, a.1.params@)
    &&& renamed_expr(d, a.1.body, b.1.body)
}

proof fn lemma_impl_bodies(
    d: Renaming,
    t: TablesView,
    u: TablesView,
    ms: Seq<(ImplDef, ImplMethod)>,
    ns: Seq<(ImplDef, ImplMethod)>,
    o: Origin,
    a: Bodies,
    b: Bodies,
)
    requires
        renames(d, t, u),
        moves_well(moving(d), u),
        renamed_impls(d, ms, ns),
        renamed_bodies(d, Ok(a), Ok(b)),
    ensures
        renamed_bodies(
            d,
            impl_bodies(t, ms, o, a),
            impl_bodies(moved_tables(moving(d), u), ns, o, b),
        ),
    decreases ms.len(),
{
    let v = moved_tables(moving(d), u);
    if ms.len() > 0 {
        let (c, m) = ms.last();
        let (e, n) = ns.last();
        let rest = ms.drop_last();
        let others = ns.drop_last();
        assert(renamed_impl(d, ms[ms.len() - 1], ns[ms.len() - 1]));
        assert forall|i: int| 0 <= i < rest.len() implies renamed_impl(
            d,
            #[trigger] rest[i],
            others[i],
        ) by {
            assert(renamed_impl(d, ms[i], ns[i]));
        }
        lemma_impl_bodies(d, t, u, rest, others, o, a, b);
        if let Ok(x) = impl_bodies(t, rest, o, a) {
            let y = impl_bodies(v, others, o, b)->Ok_0;
            if let Some(s) = m.resolved_symbol {
                let p = within(x.out, s@);
                let q = within(y.out, s@);
                assert(moved_out(moving(d), renamed_out(d, p), q));
                let key = KeyView::Bare(s@);
                lemma_key(d, t, u, key);
                let name = impl_method_name(c, m);
                if let Some(h) = function_hash(t, key) {
                    let sig = impl_method_signature(c, m);
                    lemma_body(d, t, u, sig, m.body, n.body, h, name, name, o, p, q);
                }
                lemma_with_body(
                    d,
                    x,
                    y,
                    s@,
                    (false, impl_method_body(t, c, m, o, p)),
                    (false, impl_method_body(v, e, n, o, q)),
                );
            }
        }
    }
}

/// Whether default implementations are others in which the function has its new
/// name.
pub open spec fn renamed_abilities(
    d: Renaming,
    s: Seq<(AbilityDef, AbilityMethod)>,
    t: Seq<(AbilityDef, AbilityMethod)>,
) -> bool {
    s.len() == t.len() && forall|i: int|
        0 <= i < s.len() ==> renamed_ability(d, #[trigger] s[i], t[i])
}

/// Whether a default implementation is another in which the function has its new
/// name.
pub open spec fn renamed_ability(
    d: Renaming,
    a: (AbilityDef, AbilityMethod),
    b: (AbilityDef, AbilityMethod),
) -> bool {
    &&& b.0.uuid@ == a.0.uuid@
    &&& b.0.name@ == a.0.name@
    &&& b.1.name@ == a.1.name@
    &&& b.1.resolved_signature == a.1.resolved_signature
    &&& b.1.span == a.1.span
    &&& symbol_avoids(d, impl_symbol(a.0.uuid@, a.1.name@))
    &&& ability_method_signature(b.1) == ability_method_signature(a.1)
    &&& params_avoid(d, a.1.params@)
    &&& match a.1.body {
        Some(x) => b.1.body matches Some(y) && renamed_expr(d, x, y),
        None => b.1.body is None,
    }
}

proof fn lemma_ability_bodies(
    d: Renaming,
    t: TablesView,
    u: TablesView,
    ms: Seq<(AbilityDef, AbilityMethod)>,
    ns: Seq<(AbilityDef, AbilityMethod)>,
    o: Origin,
    a: Bodies,
    b: Bodies,
)
    requires
        renames(d, t, u),
        moves_well(moving(d), u),
        renamed_abilities(d, ms, ns),
        renamed_bodies(d, Ok(a), Ok(b)),
    ensures
        renamed_bodies(
            d,
            ability_bodies(t, ms, o, a),
            ability_bodies(moved_tables(moving(d), u), ns, o, b),
        ),
    decreases ms.len(),
{
    let v = moved_tables(moving(d), u);
    if ms.len() > 0 {
        let (c, m) = ms.last();
        let (e, n) = ns.last();
        let rest = ms.drop_last();
        let others = ns.drop_last();
        assert(renamed_ability(d, ms[ms.len() - 1], ns[ms.len() - 1]));
        assert forall|i: int| 0 <= i < rest.len() implies renamed_ability(
            d,
            #[trigger] rest[i],
            others[i],
        ) by {
            assert(renamed_ability(d, ms[i], ns[i]));
        }
        lemma_ability_bodies(d, t, u, rest, others, o, a, b);
        if let Ok(x) = ability_bodies(t, rest, o, a) {
            let y = ability_bodies(v, others, o, b)->Ok_0;
            let s = impl_symbol(c.uuid@, m.name@);
            let p = within(x.out, s);
            let q = within(y.out, s);
            assert(moved_out(moving(d), renamed_out(d, p), q));
            let key = KeyView::Bare(s);
            lemma_key(d, t, u, key);
            let name = c.name@ + "::"@ + m.name@;
            if let Some(h) = function_hash(t, key) {
                if let Some(body) = m.body {
                    let sig = ability_method_signature(m);
                    lemma_body(d, t, u, sig, body, n.body->0, h, name, name, o, p, q);
                }
            }
            lemma_with_body(
                d,
                x,
                y,
                s,
                (false, ability_method_body(t, c, m, s, o, p)),
                (false, ability_method_body(v, e, n, s, o, q)),
            );
        }
    }
}

// ── linking ─────────────────────────────────────────────────────────────────

/// Whether tables of hashes give every key the same but the two of the function.
pub open spec fn agree(d: Renaming, x: Map<KeyView, Seq<u8>>, y: Map<KeyView, Seq<u8>>) -> bool {
    forall|k: KeyView| #[trigger] avoids(d, k) ==> bound_to(x, k) == bound_to(y, k)
}

/// Whether the function's keys mean its temporary hashes.
pub open spec fn keys_bound(
    d: Renaming,
    x: Map<KeyView, Seq<u8>>,
    y: Map<KeyView, Seq<u8>>,
) -> bool {
    &&& bound_to(x, d.from) == Some(temporary_hash(d.old_name))
    &&& bound_to(y, d.to) == Some(temporary_hash(d.new_name))
}

/// Whether one of some functions has a name.
pub open spec fn declares(fs: Seq<FunctionDef>, name: Seq<char>) -> bool {
    exists|i: int| 0 <= i < fs.len() && (#[trigger] fs[i]).name@ == name
}

proof fn lemma_with_functions(
    d: Renaming,
    m: Map<KeyView, Seq<u8>>,
    id: Option<ModuleView>,
    fs: Seq<FunctionDef>,
    gs: Seq<FunctionDef>,
)
    requires
        keys_of_module(d, id),
        renamed_functions(d, fs, gs),
    ensures
        agree(d, with_functions(m, id, fs), with_functions(m, id, gs)),
        declares(fs, d.old_name) ==> keys_bound(
            d,
            with_functions(m, id, fs),
            with_functions(m, id, gs),
        ),
    decreases fs.len(),
{
    if fs.len() > 0 {
        let rest = fs.drop_last();
        let others = gs.drop_last();
        assert(renamed_function(d, fs[fs.len() - 1], gs[fs.len() - 1]));
        assert forall|i: int| 0 <= i < rest.len() implies renamed_function(
            d,
            #[trigger] rest[i],
            others[i],
        ) by {
            assert(renamed_function(d, fs[i], gs[i]));
        }
        lemma_with_functions(d, m, id, rest, others);
        lemma_own_key(d, id, fs.last().name@);
        lemma_own_key(d, id, gs.last().name@);
        if declares(fs, d.old_name) && fs.last().name@ != d.old_name {
            let i = choose|i: int| 0 <= i < fs.len() && (#[trigger] fs[i]).name@ == d.old_name;
            assert(rest[i].name@ == d.old_name);
            assert(declares(rest, d.old_name));
        }
        let x = with_functions(m, id, fs);
        let y = with_functions(m, id, gs);
        assert forall|k: KeyView| #[trigger] avoids(d, k) implies bound_to(x, k) == bound_to(
            y,
            k,
        ) by {
            assert(bound_to(with_functions(m, id, rest), k) == bound_to(
                with_functions(m, id, others),
                k,
            ));
        }
    }
}

/// Whether native functions have neither name.
pub open spec fn externs_avoid(d: Renaming, ds: Seq<ExternFnDef>) -> bool {
    forall|i: int|
        0 <= i < ds.len() ==> (#[trigger] ds[i]).name@ != d.old_name && ds[i].name@ != d.new_name
}

proof fn lemma_with_natives(
    d: Renaming,
    x: Map<KeyView, Seq<u8>>,
    y: Map<KeyView, Seq<u8>>,
    id: Option<ModuleView>,
    natives: Map<Seq<char>, BindingView>,
    ds: Seq<ExternFnDef>,
)
    requires
        keys_of_module(d, id),
        externs_avoid(d, ds),
        agree(d, x, y),
        keys_bound(d, x, y),
    ensures
        match with_natives(x, id, natives, ds) {
            Err(e) => with_natives(y, id, natives, ds) == Err::<Natives, ErrorView>(e),
            Ok(a) => with_natives(y, id, natives, ds) matches Ok(b) && a.objects == b.objects
                && a.names == b.names && agree(d, a.hashes, b.hashes) && keys_bound(
                d,
                a.hashes,
                b.hashes,
            ),
        },
    decreases ds.len(),
{
    if ds.len() > 0 {
        let rest = ds.drop_last();
        assert(ds[ds.len() - 1].name@ != d.old_name);
        assert forall|i: int| 0 <= i < rest.len() implies (#[trigger] rest[i]).name@ != d.old_name
            && rest[i].name@ != d.new_name by {
            assert(ds[i].name@ != d.old_name);
        }
        lemma_with_natives(d, x, y, id, natives, rest);
        lemma_own_key(d, id, ds.last().name@);
        if let Ok(a) = with_natives(x, id, natives, ds) {
            let b = with_natives(y, id, natives, ds)->Ok_0;
            let c = with_natives(x, id, natives, rest)->Ok_0;
            let e = with_natives(y, id, natives, rest)->Ok_0;
            assert forall|k: KeyView| #[trigger] avoids(d, k) implies bound_to(a.hashes, k)
                == bound_to(b.hashes, k) by {
                assert(bound_to(c.hashes, k) == bound_to(e.hashes, k));
            }
        }
    }
}

proof fn lemma_with_symbols(
    d: Renaming,
    x: Map<KeyView, Seq<u8>>,
    y: Map<KeyView, Seq<u8>>,
    symbols: Seq<Seq<char>>,
)
    requires
        agree(d, x, y),
        keys_bound(d, x, y),
        forall|i: int| 0 <= i < symbols.len() ==> avoids_name(d, #[trigger] symbols[i]),
    ensures
        agree(d, with_symbols(x, symbols), with_symbols(y, symbols)),
        keys_bound(d, with_symbols(x, symbols), with_symbols(y, symbols)),
    decreases symbols.len(),
{
    if symbols.len() > 0 {
        let rest = symbols.drop_last();
        assert(avoids_name(d, symbols[symbols.len() - 1]));
        assert forall|i: int| 0 <= i < rest.len() implies avoids_name(d, #[trigger] rest[i]) by {
            assert(avoids_name(d, symbols[i]));
        }
        lemma_with_symbols(d, x, y, rest);
        let a = with_symbols(x, symbols);
        let b = with_symbols(y, symbols);
        assert forall|k: KeyView| #[trigger] avoids(d, k) implies bound_to(a, k) == bound_to(
            b,
            k,
        ) by {
            assert(bound_to(with_symbols(x, rest), k) == bound_to(with_symbols(y, rest), k));
        }
    }
}

proof fn lemma_impl_symbols(
    d: Renaming,
    ms: Seq<(ImplDef, ImplMethod)>,
    ns: Seq<(ImplDef, ImplMethod)>,
)
    requires
        renamed_impls(d, ms, ns),
    ensures
        impl_symbols(ns) == impl_symbols(ms),
        impl_symbols(ms) matches Ok(s) ==> forall|i: int|
            0 <= i < s.len() ==> avoids_name(d, #[trigger] s[i]),
    decreases ms.len(),
{
    if ms.len() > 0 {
        let rest = ms.drop_last();
        let others = ns.drop_last();
        assert(renamed_impl(d, ms[ms.len() - 1], ns[ms.len() - 1]));
        assert forall|i: int| 0 <= i < rest.len() implies renamed_impl(
            d,
            #[trigger] rest[i],
            others[i],
        ) by {
            assert(renamed_impl(d, ms[i], ns[i]));
        }
        lemma_impl_symbols(d, rest, others);
    }
}

/// Whether a module is another in which a function has its new name, here and
/// wherever it is called: all else is as it was, the places in the source too.
pub open spec fn renamed_module(d: Renaming, m: Module, n: Module) -> bool {
    let a = m.items@;
    let b = n.items@;
    &&& declares(all_functions(a), d.old_name)
    &&& renamed_functions(d, all_functions(a), all_functions(b))
    &&& renamed_impls(d, impl_methods(all_impls(a)), impl_methods(all_impls(b)))
    &&& renamed_abilities(
        d,
        ability_methods(all_abilities(a)),
        ability_methods(all_abilities(b)),
    )
    &&& with_abilities(seq![], all_abilities(b)) == with_abilities(seq![], all_abilities(a))
    &&& all_externs(b) == all_externs(a)
    &&& externs_avoid(d, all_externs(a))
    &&& all_consts(b) == all_consts(a)
    &&& all_enums(b) == all_enums(a)
    &&& all_structs(b) == all_structs(a)
}

proof fn lemma_linking(d: Renaming, m: Module, n: Module, o: OptionsView)
    requires
        keys_of_module(d, o.env.module_id),
        renamed_module(d, m, n),
    ensures
        match linking(m, o) {
            Err(e) => linking(n, o) == Err::<Natives, ErrorView>(e),
            Ok(x) => linking(n, o) matches Ok(y) && x.objects == y.objects && x.names == y.names
                && agree(d, x.hashes, y.hashes) && keys_bound(d, x.hashes, y.hashes),
        },
{
    let id = o.env.module_id;
    let fs = all_functions(m.items@);
    let gs = all_functions(n.items@);
    let es = all_externs(m.items@);
    let natives = o.env.extern_natives;
    let ims = impl_methods(all_impls(m.items@));
    let ins = impl_methods(all_impls(n.items@));
    let ams = ability_methods(all_abilities(m.items@));
    let ans = ability_methods(all_abilities(n.items@));
    lemma_with_functions(d, o.imported, id, fs, gs);
    let x = with_functions(o.imported, id, fs);
    let y = with_functions(o.imported, id, gs);
    lemma_with_natives(d, x, y, id, natives, es);
    lemma_impl_symbols(d, ims, ins);
    assert forall|i: int| 0 <= i < ams.len() implies #[trigger] ability_symbols(ams)[i]
        == ability_symbols(ans)[i] && avoids_name(d, ability_symbols(ams)[i]) by {
        assert(renamed_ability(d, ams[i], ans[i]));
    }
    assert(ability_symbols(ams) =~= ability_symbols(ans));
    if let Ok(a) = with_natives(x, id, natives, es) {
        let b = with_natives(y, id, natives, es)->Ok_0;
        if let Ok(symbols) = impl_symbols(ims) {
            let own = ability_symbols(ams);
            lemma_with_symbols(d, a.hashes, b.hashes, own);
            lemma_with_symbols(
                d,
                with_symbols(a.hashes, own),
                with_symbols(b.hashes, own),
                symbols,
            );
        }
    }
}

// ── the symbolic form ───────────────────────────────────────────────────────

/// Whether the names and hashes of a renaming are the function's alone: under
/// neither key stands a constant, and no other function and nothing that cannot
/// move has one of its temporary hashes.
pub open spec fn renaming_is_free(d: Renaming, t: TablesView) -> bool {
    &&& ordinary(d)
    &&& !t.const_hashes.contains_key(d.from)
    &&& !t.const_hashes.contains_key(d.to)
    &&& !settled(t, temporary_hash(d.old_name))
    &&& !settled(t, temporary_hash(d.new_name))
    &&& forall|k: KeyView| #[trigger]
        t.function_hashes.contains_key(k) && k != d.to ==> t.function_hashes[k] != temporary_hash(
            d.old_name,
        ) && t.function_hashes[k] != temporary_hash(d.new_name)
}

/// Whether a symbolic form is another with the new name.
pub open spec fn renamed_form(d: Renaming, a: FormView, b: FormView) -> bool {
    &&& (FormView { functions: b.functions, lambdas: b.lambdas, ..a }) == b
    &&& a.functions.len() == b.functions.len()
    &&& forall|i: int|
        0 <= i < a.functions.len() ==> renamed_entry(d, #[trigger] a.functions[i], b.functions[i])
    &&& a.lambdas.len() == b.lambdas.len()
    &&& forall|i: int|
        0 <= i < a.lambdas.len() ==> (#[trigger] a.lambdas[i]).0 == b.lambdas[i].0 && moved_body(
            moving(d),
            a.lambdas[i].2,
            b.lambdas[i].2,
        )
}

proof fn lemma_group_names(
    d: Renaming,
    ms: Seq<(AbilityDef, AbilityMethod)>,
    ns: Seq<(AbilityDef, AbilityMethod)>,
)
    requires
        renamed_abilities(d, ms, ns),
    ensures
        group_names(ns) == group_names(ms),
        method_checks(ns) == method_checks(ms),
    decreases ms.len(),
{
    assert forall|i: int| 0 <= i < ms.len() implies #[trigger] method_checks(ns)[i]
        == method_checks(ms)[i] by {
        assert(renamed_ability(d, ms[i], ns[i]));
    }
    assert(method_checks(ns) =~= method_checks(ms));
    if ms.len() > 0 {
        let rest = ms.drop_last();
        let others = ns.drop_last();
        assert(renamed_ability(d, ms[ms.len() - 1], ns[ms.len() - 1]));
        assert forall|i: int| 0 <= i < rest.len() implies renamed_ability(
            d,
            #[trigger] rest[i],
            others[i],
        ) by {
            assert(renamed_ability(d, ms[i], ns[i]));
        }
        lemma_group_names(d, rest, others);
    }
}

proof fn lemma_tables(d: Renaming, t: TablesView, v: TablesView) -> (u: TablesView)
    requires
        v == (TablesView { function_hashes: v.function_hashes, ..t }),
        t.thunks == Set::<KeyView>::empty(),
        agree(d, t.function_hashes, v.function_hashes),
        keys_bound(d, t.function_hashes, v.function_hashes),
        renaming_is_free(d, v),
    ensures
        renames(d, t, u),
        moves_well(moving(d), u),
        moved_tables(moving(d), u) == v,
{
    let x = temporary_hash(d.old_name);
    let y = temporary_hash(d.new_name);
    let r = moving(d);
    let u = TablesView { function_hashes: v.function_hashes.insert(d.to, x), ..v };
    assert forall|k: KeyView|
        #![trigger function_hash(u, k)]
        avoids(d, k) implies function_hash(u, k) == function_hash(t, k) by {
        assert(bound_to(t.function_hashes, k) == bound_to(v.function_hashes, k));
    }
    assert(moved_tables(r, u).function_hashes =~= v.function_hashes) by {
        assert forall|k: KeyView| #[trigger] v.function_hashes.contains_key(k) implies moved_tables(
            r,
            u,
        ).function_hashes[k] == v.function_hashes[k] by {
            if k != d.to {
                assert(v.function_hashes.contains_key(k) && k != d.to);
            }
        }
    }
    assert forall|h: Seq<u8>| #[trigger] settled(u, h) implies !r.contains_key(h) by {
        assert(settled(v, h));
    }
    assert(used(u, y) ==> x == y) by {
        if used(u, y) {
            if settled(u, y) {
                assert(settled(v, y));
            } else {
                let k = choose|k: KeyView| #[trigger]
                    u.function_hashes.contains_key(k) && u.function_hashes[k] == y;
                if k != d.to {
                    assert(v.function_hashes.contains_key(k) && k != d.to);
                }
            }
        }
    }
    u
}

/// The symbolic form of a module with a function renamed is the form that it had,
/// with the new name; or compiling gives the error that it gave.
pub proof fn renaming_moves_the_form(d: Renaming, m: Module, n: Module, o: OptionsView)
    requires
        keys_of_module(d, o.env.module_id),
        renamed_module(d, m, n),
        linking(n, o) matches Ok(l) ==> (tables_of(n, o.env, l.hashes) matches Ok(t)
            ==> renaming_is_free(d, t)),
    ensures
        match symbolic_form(m, o) {
            Err(e) => symbolic_form(n, o) == Err::<FormView, ErrorView>(e),
            Ok(a) => symbolic_form(n, o) matches Ok(b) && renamed_form(d, a, b),
        },
{
    lemma_linking(d, m, n, o);
    let ams = ability_methods(all_abilities(m.items@));
    let ans = ability_methods(all_abilities(n.items@));
    lemma_group_names(d, ams, ans);
    if let Ok(x) = linking(m, o) {
        let y = linking(n, o)->Ok_0;
        if let Ok(t) = tables_of(m, o.env, x.hashes) {
            let v = tables_of(n, o.env, y.hashes)->Ok_0;
            let u = lemma_tables(d, t, v);
            let fs = all_functions(m.items@);
            let gs = all_functions(n.items@);
            let ims = impl_methods(all_impls(m.items@));
            let ins = impl_methods(all_impls(n.items@));
            lemma_function_bodies(d, t, u, fs, gs, o.origin);
            if let Ok(a) = function_bodies(t, fs, o.origin) {
                let b = function_bodies(v, gs, o.origin)->Ok_0;
                lemma_impl_bodies(d, t, u, ims, ins, o.origin, a, b);
                if let Ok(a) = impl_bodies(t, ims, o.origin, a) {
                    let b = impl_bodies(v, ins, o.origin, b)->Ok_0;
                    lemma_ability_bodies(d, t, u, ams, ans, o.origin, a, b);
                    if let Ok(a) = ability_bodies(t, ams, o.origin, a) {
                        let b = ability_bodies(v, ans, o.origin, b)->Ok_0;
                        let p = renamed_out(d, a.out).lambdas;
                        assert forall|i: int| 0 <= i < a.out.lambdas.len() implies (
                        #[trigger] a.out.lambdas[i]).0 == b.out.lambdas[i].0 && moved_body(
                            moving(d),
                            a.out.lambdas[i].2,
                            b.out.lambdas[i].2,
                        ) by {
                            assert(p[i].0 == b.out.lambdas[i].0);
                        }
                    }
                }
            }
        }
    }
}

// ── hashes ──────────────────────────────────────────────────────────────────

/// Whether nodes are others with the hashes moved.
spec fn moved_nodes(r: Map<Seq<u8>, Seq<u8>>, a: Seq<NodeView>, b: Seq<NodeView>) -> bool {
    a.len() == b.len() && forall|i: int|
        0 <= i < a.len() ==> b[i].temp == moved(r, (#[trigger] a[i]).temp) && same_code(
            r,
            a[i].func,
            b[i].func,
        )
}

proof fn lemma_local(d: Renaming, a: Seq<NodeView>, b: Seq<NodeView>, h: Seq<u8>)
    requires
        a.len() == b.len(),
        forall|i: int|
            0 <= i < a.len() ==> b[i].temp == moved(moving(d), (#[trigger] a[i]).temp) && a[i].temp
                != temporary_hash(d.new_name),
        h != temporary_hash(d.new_name),
    ensures
        local_at(b, moved(moving(d), h)) == local_at(a, h),
    decreases a.len(),
{
    if a.len() > 0 {
        let rest = a.drop_last();
        let others = b.drop_last();
        assert(b[a.len() - 1].temp == moved(moving(d), a[a.len() - 1].temp));
        assert forall|i: int| 0 <= i < rest.len() implies others[i].temp == moved(
            moving(d),
            (#[trigger] rest[i]).temp,
        ) && rest[i].temp != temporary_hash(d.new_name) by {
            assert(b[i].temp == moved(moving(d), a[i].temp));
        }
        lemma_local(d, rest, others, h);
    }
}

proof fn lemma_ref_nodes(
    d: Renaming,
    a: Seq<NodeView>,
    b: Seq<NodeView>,
    cs: Seq<ConstantView>,
    ds: Seq<ConstantView>,
)
    requires
        moved_nodes(moving(d), a, b),
        nowhere(a, temporary_hash(d.new_name)),
        cs.len() == ds.len(),
        forall|k: int|
            0 <= k < cs.len() ==> ds[k] == moved_constant(moving(d), #[trigger] cs[k])
                && constant_ref(cs[k]) != Some(temporary_hash(d.new_name)),
    ensures
        ref_nodes(b, ds) == ref_nodes(a, cs),
    decreases cs.len(),
{
    if cs.len() > 0 {
        let rest = cs.drop_last();
        let others = ds.drop_last();
        assert(ds[cs.len() - 1] == moved_constant(moving(d), cs[cs.len() - 1]));
        assert forall|k: int| 0 <= k < rest.len() implies others[k] == moved_constant(
            moving(d),
            #[trigger] rest[k],
        ) && constant_ref(rest[k]) != Some(temporary_hash(d.new_name)) by {
            assert(ds[k] == moved_constant(moving(d), cs[k]));
        }
        lemma_ref_nodes(d, a, b, rest, others);
        if let Some(h) = constant_ref(cs.last()) {
            assert forall|i: int| 0 <= i < a.len() implies b[i].temp == moved(
                moving(d),
                (#[trigger] a[i]).temp,
            ) && a[i].temp != temporary_hash(d.new_name) by {
                assert(same_code(moving(d), a[i].func, b[i].func));
            }
            lemma_local(d, a, b, h);
        }
    }
}

/// Nodes keep their places.
spec fn in_place(n: nat) -> Seq<int> {
    Seq::new(n, |i: int| i)
}

proof fn lemma_alike(
    d: Renaming,
    a: Seq<NodeView>,
    b: Seq<NodeView>,
    at: int,
)
    requires
        moved_nodes(moving(d), a, b),
        nowhere(a, temporary_hash(d.new_name)),
        temps_differ(a),
        0 <= at < a.len(),
        a[at].temp == temporary_hash(d.old_name),
        !on_cycle(call_graph(a), at),
        !a[at].func.dependencies.contains(temporary_hash(d.old_name)),
        forall|i: int|
            0 <= i < a.len() && i != at ==> (#[trigger] a[i]).group_name == b[i].group_name,
    ensures
        alike(a, b, in_place(a.len()), in_place(a.len())),
        temps_in_order(a, b, in_place(a.len())),
        own_references_alike(a, b, in_place(a.len())),
{
    let r = moving(d);
    let y = temporary_hash(d.new_name);
    let p = in_place(a.len());
    assert forall|i: int| 0 <= i < a.len() implies b[i].temp == moved(r, (#[trigger] a[i]).temp)
        && a[i].temp != y by {
        assert(same_code(r, a[i].func, b[i].func));
    }
    assert forall|h: Seq<u8>| h != y implies #[trigger] ref_alike(a, b, p, h, moved(r, h)) by {
        lemma_local(d, a, b, h);
        lemma_local_at(a, h);
        if local_at(a, h) is None {
            assert(a[at].temp != h);
        }
    }
    assert forall|i: int| 0 <= i < a.len() implies #[trigger] function_alike(
        a,
        b,
        p,
        a[i].func,
        b[p[i]].func,
    ) by {
        let f = a[i].func;
        let g = b[i].func;
        assert(same_code(r, f, g));
        assert(b[i].temp == moved(r, a[i].temp));
        assert forall|k: int| 0 <= k < f.constants.len() implies #[trigger] constant_alike(
            a,
            b,
            p,
            f.constants[k],
            g.constants[k],
        ) by {
            assert(g.constants[k] == moved_constant(r, f.constants[k]));
            assert(constant_ref(a[i].func.constants[k]) != Some(y));
            if let Some(h) = constant_ref(f.constants[k]) {
                assert(ref_alike(a, b, p, h, moved(r, h)));
            }
        }
        assert forall|k: int| 0 <= k < f.dependencies.len() implies #[trigger] ref_alike(
            a,
            b,
            p,
            f.dependencies[k],
            g.dependencies[k],
        ) by {
            assert(f.dependencies.contains(f.dependencies[k]));
            assert(g.dependencies[k] == moved(r, f.dependencies[k]));
        }
    }
    assert(call_graph(b) =~= call_graph(a)) by {
        assert forall|i: int| 0 <= i < a.len() implies #[trigger] call_graph(b)[i] == call_graph(
            a,
        )[i] by {
            let cs = a[i].func.constants;
            let ds = b[i].func.constants;
            assert(same_code(r, a[i].func, b[i].func));
            assert forall|k: int| 0 <= k < cs.len() implies ds[k] == moved_constant(
                r,
                #[trigger] cs[k],
            ) && constant_ref(cs[k]) != Some(y) by {
                assert(constant_ref(a[i].func.constants[k]) != Some(y));
            }
            lemma_ref_nodes(d, a, b, cs, ds);
        }
    }
    assert forall|i: int| 0 <= i < a.len() && i != at implies (#[trigger] a[i]).temp
        == b[i].temp by {
        assert(a[i].temp != a[at].temp);
        assert(b[i].temp == moved(r, a[i].temp));
    }
    assert forall|i: int, k: int|
        0 <= i < a.len() && 0 <= k < a[i].func.dependencies.len() && local_at(
            a,
            #[trigger] a[i].func.dependencies[k],
        ) == Some(i) && !on_cycle(call_graph(a), i) implies a[i].func.dependencies[k]
        == b[p[i]].func.dependencies[k] by {
        let h = a[i].func.dependencies[k];
        lemma_local_at(a, h);
        assert(a[i].temp == h);
        assert(a[i].func.dependencies.contains(h));
        assert(same_code(r, a[i].func, b[i].func));
        assert(b[i].func.dependencies[k] == moved(r, h));
        if i != at {
            assert(a[i].temp != a[at].temp);
        }
    }
}

/// Which keys are added.
proof fn lemma_kept_key<A, B>(m: Map<A, B>, es: Seq<(A, B)>, k: A)
    ensures
        kept(m, es).contains_key(k) <==> m.contains_key(k) || exists|i: int|
            0 <= i < es.len() && (#[trigger] es[i]).0 == k,
        m.contains_key(k) ==> kept(m, es)[k] == m[k],
    decreases es.len(),
{
    if es.len() > 0 {
        let rest = es.drop_last();
        lemma_kept_key(m, rest, k);
        assert(forall|i: int| 0 <= i < rest.len() ==> #[trigger] rest[i] == es[i]);
        assert(es[es.len() - 1] == es.last());
        if exists|i: int| 0 <= i < rest.len() && (#[trigger] rest[i]).0 == k {
            let i = choose|i: int| 0 <= i < rest.len() && (#[trigger] rest[i]).0 == k;
            assert(es[i].0 == k);
        }
        if exists|i: int| 0 <= i < es.len() && (#[trigger] es[i]).0 == k {
            let i = choose|i: int| 0 <= i < es.len() && (#[trigger] es[i]).0 == k;
            if i < rest.len() {
                assert(rest[i].0 == k);
            }
        }
    }
}

proof fn lemma_hashed(v: Seq<ObjectView>, w: Seq<ObjectView>, h: Seq<u8>)
    requires
        v.to_set() == w.to_set(),
        exists|i: int| 0 <= i < hashed(v).len() && (#[trigger] hashed(v)[i]).0 == h,
    ensures
        exists|i: int| 0 <= i < hashed(w).len() && (#[trigger] hashed(w)[i]).0 == h,
{
    let i = choose|i: int| 0 <= i < hashed(v).len() && (#[trigger] hashed(v)[i]).0 == h;
    assert(v.contains(v[i]));
    assert(v.to_set().contains(v[i]));
    assert(w.to_set().contains(v[i]));
    let j = w.index_of(v[i]);
    assert(hashed(w)[j].0 == h);
}

proof fn lemma_objects(
    a: Map<Seq<u8>, ObjectView>,
    b: Map<Seq<u8>, ObjectView>,
    v: Seq<ObjectView>,
    w: Seq<ObjectView>,
)
    requires
        a.dom() == b.dom(),
        v.to_set() == w.to_set(),
    ensures
        kept(a, hashed(v)).dom() == kept(b, hashed(w)).dom(),
{
    let x = kept(a, hashed(v));
    let y = kept(b, hashed(w));
    assert forall|h: Seq<u8>| x.contains_key(h) == y.contains_key(h) by {
        lemma_kept_key(a, hashed(v), h);
        lemma_kept_key(b, hashed(w), h);
        assert(a.dom().contains(h) == b.dom().contains(h));
        if exists|i: int| 0 <= i < hashed(v).len() && (#[trigger] hashed(v)[i]).0 == h {
            lemma_hashed(v, w, h);
        }
        if exists|i: int| 0 <= i < hashed(w).len() && (#[trigger] hashed(w)[i]).0 == h {
            lemma_hashed(w, v, h);
        }
    }
    assert(x.dom() =~= y.dom());
}

/// A node that is on no cycle does not depend on itself.
proof fn lemma_not_on_itself(nodes: Seq<NodeView>, at: int)
    requires
        0 <= at < nodes.len(),
        temps_differ(nodes),
        !on_cycle(call_graph(nodes), at),
        forall|i: int, h: Seq<u8>|
            0 <= i < nodes.len() && #[trigger] nodes[i].func.dependencies.contains(h) && local_at(
                nodes,
                h,
            ) is Some ==> edge(call_graph(nodes), i, local_at(nodes, h)->0),
    ensures
        !nodes[at].func.dependencies.contains(nodes[at].temp),
{
    if nodes[at].func.dependencies.contains(nodes[at].temp) {
        lemma_local_at(nodes, nodes[at].temp);
        assert(local_at(nodes, nodes[at].temp) == Some(at));
        assert(edge(call_graph(nodes), at, at));
    }
}

/// Renaming a function that is not recursive, and its call sites with it, moves no
/// hash: the functions of the compiled module stand under the hashes that they
/// had, the objects under the keys that they had, and every function is bound to
/// the hash that it was bound to, the renamed one under its new name. `at` is the
/// place of the function in the symbolic form. The new name is not taken.
pub proof fn renaming_moves_no_hash(
    d: Renaming,
    m: Module,
    n: Module,
    o: OptionsView,
    a: FormView,
    at: int,
    x: CompiledModule,
    y: CompiledModule,
)
    requires
        keys_of_module(d, o.env.module_id),
        renamed_module(d, m, n),
        linking(n, o) matches Ok(l) ==> (tables_of(n, o.env, l.hashes) matches Ok(t)
            ==> renaming_is_free(d, t)),
        symbolic_form(m, o) == Ok::<FormView, ErrorView>(a),
        form_nodes(a).len() <= usize::MAX,
        temps_differ(form_nodes(a)),
        names_differ(form_nodes(a)),
        objects_apart(form_nodes(a)),
        linking(m, o) matches Ok(l) ==> (tables_of(m, o.env, l.hashes) matches Ok(t) ==> !used(
            t,
            temporary_hash(d.new_name),
        )),
        0 <= at < a.functions.len(),
        a.functions[at].0 == d.old_name,
        !on_cycle(call_graph(form_nodes(a)), at),
        compiles(m, o, Ok(x)),
        compiles(n, o, Ok(y)),
    ensures
        function_map(x.functions@).dom() == function_map(y.functions@).dom(),
        object_map(x.objects@).dom() == object_map(y.objects@).dom(),
        forall|i: int|
            0 <= i < a.functions.len() ==> {
                let name = (#[trigger] a.functions[i]).0;
                &&& name_map(x.function_names@).contains_key(name)
                &&& name_map(y.function_names@).contains_key(renamed_text(d, name))
                &&& name_map(y.function_names@)[renamed_text(d, name)] == name_map(
                    x.function_names@,
                )[name]
            },
{
    renaming_moves_the_form(d, m, n, o);
    let b = symbolic_form(n, o)->Ok_0;
    let r = moving(d);
    let na = form_nodes(a);
    let nb = form_nodes(b);
    let fs = a.functions.len() as int;
    assert(renamed_entry(d, a.functions[at], b.functions[at]));
    assert(na[at].temp == temporary_hash(d.old_name));
    assert(na[at].name == Some(d.old_name));
    compiled_dependencies_are_linked(m, o, a);
    unused_hashes_stand_nowhere(m, o, a, temporary_hash(d.new_name));
    lemma_not_on_itself(na, at);
    assert forall|i: int| 0 <= i < na.len() implies nb[i].temp == moved(r, (#[trigger] na[i]).temp)
        && same_code(r, na[i].func, nb[i].func) by {
        if i < fs {
            assert(renamed_entry(d, a.functions[i], b.functions[i]));
        } else {
            assert(a.lambdas[i - fs].0 == b.lambdas[i - fs].0);
            assert(na[i].temp != na[at].temp);
        }
    }
    assert forall|i: int| 0 <= i < na.len() && i != at implies (#[trigger] na[i]).group_name
        == nb[i].group_name by {
        if i < fs {
            assert(renamed_entry(d, a.functions[i], b.functions[i]));
            assert(is_named(na[i]) && is_named(na[at]));
            assert(na[i].name != na[at].name);
        }
    }
    lemma_alike(d, na, nb, at);
    let p = in_place(na.len());
    let (ia, ha, ma) = choose|inputs: AssembleInputs, h: Seq<Seq<u8>>, base: CompiledModule|
        #![trigger finalizes(input_nodes(inputs), h, base), assembled(inputs, base, x)]
        inputs@ == a && finalizes(input_nodes(inputs), h, base) && assembled(inputs, base, x);
    let (ib, hb, mb) = choose|inputs: AssembleInputs, h: Seq<Seq<u8>>, base: CompiledModule|
        #![trigger finalizes(input_nodes(inputs), h, base), assembled(inputs, base, y)]
        inputs@ == b && finalizes(input_nodes(inputs), h, base) && assembled(inputs, base, y);
    nodes_of_form(ia);
    nodes_of_form(ib);
    modules_forget_order_and_names(na, nb, p, p, ha, ma, hb, mb);
    lemma_objects(
        object_map(ma.objects@),
        object_map(mb.objects@),
        contents(ia.const_objects@),
        contents(ib.const_objects@),
    );
    lemma_objects(
        kept(object_map(ma.objects@), hashed(contents(ia.const_objects@))),
        kept(object_map(mb.objects@), hashed(contents(ib.const_objects@))),
        contents(ia.native_objects@),
        contents(ib.native_objects@),
    );
    assert(names_differ(nb)) by {
        assert forall|i: int, j: int|
            0 <= i < j < nb.len() && is_named(#[trigger] nb[i]) && is_named(
                #[trigger] nb[j],
            ) implies nb[i].name != nb[j].name by {
            assert(i < fs && j < fs);
            assert(renamed_entry(d, a.functions[i], b.functions[i]));
            assert(renamed_entry(d, a.functions[j], b.functions[j]));
            assert(is_named(na[i]) && is_named(na[j]));
            assert(na[i].name != na[j].name);
        }
    }
    lemma_final_names(na, ha, na.len() as int);
    lemma_final_names(nb, hb, nb.len() as int);
    assert forall|i: int| 0 <= i < a.functions.len() implies {
        let name = (#[trigger] a.functions[i]).0;
        &&& name_map(x.function_names@).contains_key(name)
        &&& name_map(y.function_names@).contains_key(renamed_text(d, name))
        &&& name_map(y.function_names@)[renamed_text(d, name)] == name_map(x.function_names@)[name]
    } by {
        let name = a.functions[i].0;
        assert(renamed_entry(d, a.functions[i], b.functions[i]));
        assert(is_named(na[i]) && is_named(nb[i]) && is_named(nb[p[i]]));
        assert(ha[i] == hb[p[i]]);
        lemma_kept_key(name_map(ma.function_names@), named(ia.native_names@), name);
        lemma_kept_key(
            name_map(mb.function_names@),
            named(ib.native_names@),
            renamed_text(d, name),
        );
    }
}

} // verus!
