//! Compiling a module against functions whose hashes have moved: the result is
//! the module that its kept form becomes once the hashes in it are moved.

use vstd::prelude::*;

use crate::ast::{
    AbilityDef, AbilityMethod, Expr, ExternFnDef, FunctionDef, ImplDef, ImplMethod, Module,
};
use crate::bytecode::FunctionView;
use crate::compiler::assemble::FormView;
use crate::compiler::code::{Op, Opcode};
use crate::compiler::codegen::{expr_code, with_params};
use crate::compiler::context::{
    bound_to, empty_scope, function_hash, impl_symbol, with_local, Produced, Scope, TablesView,
};
use crate::compiler::dicts::Gen;
use crate::compiler::entry::{
    ability_bodies, ability_symbols, function_bodies, impl_bodies, impl_symbols, linking,
    symbolic_form, tables_of, with_body, within, Bodies, OptionsView,
};
use crate::compiler::error::ErrorView;
use crate::compiler::functions::{
    ability_method_body, ability_method_signature, body_function, body_scope, function_body,
    function_signature, impl_method_body, impl_method_name, impl_method_signature, with_dicts,
    Origin, Signature,
};
use crate::compiler::hash::temporary_hash;
use crate::compiler::items::{
    ability_methods, all_abilities, all_externs, all_functions, all_impls, impl_methods,
};
use crate::compiler::moving::{
    all_values, lemma_lowered, moved_hashes, moved_lambda_code, moved_out, moved_tables, moves_well,
};
use crate::compiler::prelink::moved_function;
use crate::compiler::recompiling::{lemma_expr, lemma_hash, lemma_params};
use crate::compiler::tables::{
    native_object, own_key, with_functions, with_natives, with_symbols, Natives,
};
use crate::fqn::{KeyView, ModuleView};
use crate::module_env::BindingView;
use crate::object::{object_hash, ObjectView};

verus! {

broadcast use {
    crate::compiler::moving::lemma_matching_add,
    crate::compiler::moving::lemma_matching_push,
};

// ── functions ───────────────────────────────────────────────────────────────

proof fn lemma_dict_params(s: Scope, from: nat, ds: Seq<(Seq<char>, Seq<char>)>)
    ensures
        with_dicts(s, from, ds) matches Ok(now) ==> now.block_consts == s.block_consts,
    decreases ds.len(),
{
    if ds.len() > 0 {
        lemma_dict_params(s, from, ds.drop_last());
    }
}

pub(crate) proof fn lemma_body_scope(sig: Signature)
    ensures
        body_scope(sig) matches Ok(s) ==> all_values(s.block_consts),
{
    let first = match sig.receiver {
        Some(id) => with_local(empty_scope(), id, "self"@),
        None => Ok(empty_scope()),
    };
    if let Ok(s) = first {
        lemma_params(s, sig.params);
        if let Ok(p) = with_params(s, sig.params) {
            lemma_dict_params(p, 0, sig.dicts);
        }
    }
}

/// What a function that is compiled and what is produced besides become.
pub open spec fn moved_result(
    r: Map<Seq<u8>, Seq<u8>>,
    x: Result<(FunctionView, Produced), ErrorView>,
    y: Result<(FunctionView, Produced), ErrorView>,
) -> bool {
    match x {
        Err(e) => y == Err::<(FunctionView, Produced), ErrorView>(e),
        Ok((f, p)) => y matches Ok((g, q)) && g == moved_function(r, f) && moved_out(r, p, q),
    }
}

proof fn lemma_body(
    r: Map<Seq<u8>, Seq<u8>>,
    t: TablesView,
    sig: Signature,
    body: Expr,
    hash: Seq<u8>,
    name: Seq<char>,
    o: Origin,
    p: Produced,
    q: Produced,
)
    requires
        moves_well(r, t),
        moved_out(r, p, q),
    ensures
        moved_result(
            r,
            body_function(t, sig, body, hash, name, o, p),
            body_function(moved_tables(r, t), sig, body, hash, name, o, q),
        ),
{
    lemma_body_scope(sig);
    if let Ok(scope) = body_scope(sig) {
        let x = Gen { scope, out: p };
        let y = Gen { scope, out: q };
        lemma_expr(r, t, body, true, x, y);
        if let Ok((a, _)) = expr_code(t, body, x, true) {
            let (b, _) = expr_code(moved_tables(r, t), body, y, true)->Ok_0;
            let ends = Op::Plain(Opcode::Return);
            lemma_lowered(r, t, a.push(ends), b.push(ends));
            if let Ok((f, _)) = body_function(t, sig, body, hash, name, o, p) {
                let (g, _) = body_function(moved_tables(r, t), sig, body, hash, name, o, q)->Ok_0;
                assert(g.constants =~= moved_function(r, f).constants);
                assert(g.dependencies =~= moved_function(r, f).dependencies);
            }
        }
    }
}

/// Whether the function that a key means, if any, stays.
pub open spec fn stays(
    r: Map<Seq<u8>, Seq<u8>>,
    hashes: Map<KeyView, Seq<u8>>,
    k: KeyView,
) -> bool {
    hashes.contains_key(k) ==> !r.contains_key(hashes[k])
}

/// Whether functions are the same but for the hashes that have moved, or the
/// same error.
pub open spec fn moved_bodies(
    r: Map<Seq<u8>, Seq<u8>>,
    x: Result<Bodies, ErrorView>,
    y: Result<Bodies, ErrorView>,
) -> bool {
    match x {
        Err(e) => y == Err::<Bodies, ErrorView>(e),
        Ok(a) => y matches Ok(b) && b.functions == moved_functions(r, a.functions) && moved_out(
            r,
            a.out,
            b.out,
        ),
    }
}

/// What named functions become.
pub open spec fn moved_functions(
    r: Map<Seq<u8>, Seq<u8>>,
    s: Seq<(Seq<char>, FunctionView, bool)>,
) -> Seq<(Seq<char>, FunctionView, bool)> {
    Seq::new(s.len(), |i: int| (s[i].0, moved_function(r, s[i].1), s[i].2))
}

proof fn lemma_with_body(
    r: Map<Seq<u8>, Seq<u8>>,
    a: Bodies,
    b: Bodies,
    name: Seq<char>,
    is_main: bool,
    x: Result<(FunctionView, Produced), ErrorView>,
    y: Result<(FunctionView, Produced), ErrorView>,
)
    requires
        moved_bodies(r, Ok(a), Ok(b)),
        moved_result(r, x, y),
    ensures
        moved_bodies(r, with_body(a, name, is_main, x), with_body(b, name, is_main, y)),
{
    if let Ok((f, _)) = x {
        let (g, _) = y->Ok_0;
        assert(b.functions.push((name, g, is_main)) =~= moved_functions(
            r,
            a.functions.push((name, f, is_main)),
        ));
    }
}

pub(crate) proof fn lemma_function_bodies(
    r: Map<Seq<u8>, Seq<u8>>,
    t: TablesView,
    fs: Seq<FunctionDef>,
    o: Origin,
)
    requires
        moves_well(r, t),
        forall|i: int|
            0 <= i < fs.len() ==> stays(
                r,
                t.function_hashes,
                own_key(t.module_id, (#[trigger] fs[i]).name@),
            ),
    ensures
        moved_bodies(r, function_bodies(t, fs, o), function_bodies(moved_tables(r, t), fs, o)),
    decreases fs.len(),
{
    let u = moved_tables(r, t);
    if fs.len() > 0 {
        let rest = fs.drop_last();
        let f = fs.last();
        assert forall|i: int| 0 <= i < rest.len() implies stays(
            r,
            t.function_hashes,
            own_key(t.module_id, (#[trigger] rest[i]).name@),
        ) by {
            assert(rest[i] == fs[i]);
        }
        lemma_function_bodies(r, t, rest, o);
        if let Ok(a) = function_bodies(t, rest, o) {
            let b = function_bodies(u, rest, o)->Ok_0;
            let key = own_key(t.module_id, f.name@);
            let p = within(a.out, f.name@);
            let q = within(b.out, f.name@);
            assert(stays(r, t.function_hashes, own_key(t.module_id, fs[fs.len() - 1].name@)));
            lemma_hash(r, t, key);
            if let Some(hash) = function_hash(t, key) {
                lemma_body(r, t, function_signature(f), f.body, hash, f.name@, o, p, q);
            }
            lemma_with_body(
                r,
                a,
                b,
                f.name@,
                f.name@ == "run"@,
                function_body(t, f, o, p),
                function_body(u, f, o, q),
            );
        }
    } else {
        assert(function_bodies(u, fs, o)->Ok_0.functions =~= moved_functions(
            r,
            function_bodies(t, fs, o)->Ok_0.functions,
        ));
    }
}

pub(crate) proof fn lemma_impl_bodies(
    r: Map<Seq<u8>, Seq<u8>>,
    t: TablesView,
    ms: Seq<(ImplDef, ImplMethod)>,
    o: Origin,
    a: Bodies,
    b: Bodies,
)
    requires
        moves_well(r, t),
        moved_bodies(r, Ok(a), Ok(b)),
        forall|i: int|
            0 <= i < ms.len() ==> ((#[trigger] ms[i]).1.resolved_symbol matches Some(s) ==> stays(
                r,
                t.function_hashes,
                KeyView::Bare(s@),
            )),
    ensures
        moved_bodies(r, impl_bodies(t, ms, o, a), impl_bodies(moved_tables(r, t), ms, o, b)),
    decreases ms.len(),
{
    let u = moved_tables(r, t);
    if ms.len() > 0 {
        let rest = ms.drop_last();
        let (d, m) = ms.last();
        assert forall|i: int| 0 <= i < rest.len() implies ((
        #[trigger] rest[i]).1.resolved_symbol matches Some(s) ==> stays(
            r,
            t.function_hashes,
            KeyView::Bare(s@),
        )) by {
            assert(rest[i] == ms[i]);
        }
        lemma_impl_bodies(r, t, rest, o, a, b);
        if let Ok(c) = impl_bodies(t, rest, o, a) {
            let e = impl_bodies(u, rest, o, b)->Ok_0;
            if let Some(s) = m.resolved_symbol {
                let p = within(c.out, s@);
                let q = within(e.out, s@);
                assert(ms[ms.len() - 1].1.resolved_symbol == Some(s));
                lemma_hash(r, t, KeyView::Bare(s@));
                if let Some(hash) = function_hash(t, KeyView::Bare(s@)) {
                    let sig = impl_method_signature(d, m);
                    lemma_body(r, t, sig, m.body, hash, impl_method_name(d, m), o, p, q);
                }
                lemma_with_body(
                    r,
                    c,
                    e,
                    s@,
                    false,
                    impl_method_body(t, d, m, o, p),
                    impl_method_body(u, d, m, o, q),
                );
            }
        }
    }
}

pub(crate) proof fn lemma_ability_bodies(
    r: Map<Seq<u8>, Seq<u8>>,
    t: TablesView,
    ms: Seq<(AbilityDef, AbilityMethod)>,
    o: Origin,
    a: Bodies,
    b: Bodies,
)
    requires
        moves_well(r, t),
        moved_bodies(r, Ok(a), Ok(b)),
        forall|i: int|
            0 <= i < ms.len() ==> stays(
                r,
                t.function_hashes,
                KeyView::Bare(impl_symbol((#[trigger] ms[i]).0.uuid@, ms[i].1.name@)),
            ),
    ensures
        moved_bodies(r, ability_bodies(t, ms, o, a), ability_bodies(moved_tables(r, t), ms, o, b)),
    decreases ms.len(),
{
    let u = moved_tables(r, t);
    if ms.len() > 0 {
        let rest = ms.drop_last();
        let (d, m) = ms.last();
        let symbol = impl_symbol(d.uuid@, m.name@);
        assert forall|i: int| 0 <= i < rest.len() implies stays(
            r,
            t.function_hashes,
            KeyView::Bare(impl_symbol((#[trigger] rest[i]).0.uuid@, rest[i].1.name@)),
        ) by {
            assert(rest[i] == ms[i]);
        }
        lemma_ability_bodies(r, t, rest, o, a, b);
        if let Ok(c) = ability_bodies(t, rest, o, a) {
            let e = ability_bodies(u, rest, o, b)->Ok_0;
            let p = within(c.out, symbol);
            let q = within(e.out, symbol);
            assert(ms[ms.len() - 1] == (d, m));
            lemma_hash(r, t, KeyView::Bare(symbol));
            if let Some(hash) = function_hash(t, KeyView::Bare(symbol)) {
                if let Some(body) = m.body {
                    let sig = ability_method_signature(m);
                    lemma_body(r, t, sig, body, hash, d.name@ + "::"@ + m.name@, o, p, q);
                }
            }
            lemma_with_body(
                r,
                c,
                e,
                symbol,
                false,
                ability_method_body(t, d, m, symbol, o, p),
                ability_method_body(u, d, m, symbol, o, q),
            );
        }
    }
}

// ── modules ─────────────────────────────────────────────────────────────────

/// Adding the module's own functions keeps step with moving the hashes.
proof fn lemma_with_functions(
    r: Map<Seq<u8>, Seq<u8>>,
    m: Map<KeyView, Seq<u8>>,
    id: Option<ModuleView>,
    ds: Seq<FunctionDef>,
)
    requires
        keeps_temporaries(r),
    ensures
        with_functions(moved_hashes(r, m), id, ds) == moved_hashes(r, with_functions(m, id, ds)),
        forall|i: int|
            0 <= i < ds.len() ==> stays(
                r,
                with_functions(m, id, ds),
                own_key(id, (#[trigger] ds[i]).name@),
            ),
    decreases ds.len(),
{
    if ds.len() > 0 {
        let rest = ds.drop_last();
        lemma_with_functions(r, m, id, rest);
        let temp = temporary_hash(ds.last().name@);
        assert(!r.contains_key(temp));
        assert forall|i: int| 0 <= i < ds.len() implies stays(
            r,
            with_functions(m, id, ds),
            own_key(id, (#[trigger] ds[i]).name@),
        ) by {
            if i < rest.len() {
                assert(rest[i] == ds[i]);
            }
        }
    }
    assert(with_functions(moved_hashes(r, m), id, ds) =~= moved_hashes(
        r,
        with_functions(m, id, ds),
    ));
}

proof fn lemma_with_symbols(
    r: Map<Seq<u8>, Seq<u8>>,
    m: Map<KeyView, Seq<u8>>,
    symbols: Seq<Seq<char>>,
)
    requires
        keeps_temporaries(r),
    ensures
        with_symbols(moved_hashes(r, m), symbols) == moved_hashes(r, with_symbols(m, symbols)),
        forall|k: KeyView| #[trigger] stays(r, m, k) ==> stays(r, with_symbols(m, symbols), k),
        forall|i: int|
            0 <= i < symbols.len() ==> stays(
                r,
                with_symbols(m, symbols),
                KeyView::Bare(#[trigger] symbols[i]),
            ),
    decreases symbols.len(),
{
    if symbols.len() > 0 {
        let rest = symbols.drop_last();
        lemma_with_symbols(r, m, rest);
        assert(!r.contains_key(temporary_hash(symbols.last())));
        assert forall|i: int| 0 <= i < symbols.len() implies stays(
            r,
            with_symbols(m, symbols),
            KeyView::Bare(#[trigger] symbols[i]),
        ) by {
            if i < rest.len() {
                assert(rest[i] == symbols[i]);
            }
        }
        assert forall|k: KeyView| #[trigger] stays(r, m, k) implies stays(
            r,
            with_symbols(m, symbols),
            k,
        ) by {
            assert(stays(r, with_symbols(m, rest), k));
        }
    }
    assert(with_symbols(moved_hashes(r, m), symbols) =~= moved_hashes(
        r,
        with_symbols(m, symbols),
    ));
}

proof fn lemma_with_natives(
    r: Map<Seq<u8>, Seq<u8>>,
    m: Map<KeyView, Seq<u8>>,
    id: Option<ModuleView>,
    natives: Map<Seq<char>, BindingView>,
    ds: Seq<ExternFnDef>,
)
    requires
        with_natives(m, id, natives, ds) matches Ok(n) ==> keeps_objects(r, n.objects),
    ensures
        match with_natives(m, id, natives, ds) {
            Err(e) => with_natives(moved_hashes(r, m), id, natives, ds) == Err::<
                Natives,
                ErrorView,
            >(e),
            Ok(n) => with_natives(moved_hashes(r, m), id, natives, ds) == Ok::<Natives, ErrorView>(
                Natives { hashes: moved_hashes(r, n.hashes), ..n },
            ) && forall|k: KeyView| #[trigger] stays(r, m, k) ==> stays(r, n.hashes, k),
        },
    decreases ds.len(),
{
    if ds.len() > 0 {
        let rest = ds.drop_last();
        let d = ds.last();
        let declared = d.params@.len() as u8;
        if let Ok(n) = with_natives(m, id, natives, ds) {
            let before = with_natives(m, id, natives, rest)->Ok_0;
            let o = native_object(bound_to(natives, d.name@)->0, declared);
            assert(n.objects == before.objects.insert(o));
            assert(keeps_objects(r, before.objects)) by {
                assert forall|x: ObjectView| #[trigger]
                    before.objects.contains(x) implies !r.contains_key(object_hash(x)) by {
                    assert(n.objects.contains(x));
                }
            }
            lemma_with_natives(r, m, id, natives, rest);
            assert(n.objects.contains(o));
            assert(moved_hashes(r, n.hashes) =~= moved_hashes(r, before.hashes).insert(
                own_key(id, d.name@),
                object_hash(o),
            ));
            assert forall|k: KeyView| #[trigger] stays(r, m, k) implies stays(r, n.hashes, k) by {
                assert(stays(r, before.hashes, k));
            }
        } else {
            lemma_natives_fault(r, m, id, natives, ds);
        }
    }
}

/// What stops native functions from being added does not depend on the hashes.
proof fn lemma_natives_fault(
    r: Map<Seq<u8>, Seq<u8>>,
    m: Map<KeyView, Seq<u8>>,
    id: Option<ModuleView>,
    natives: Map<Seq<char>, BindingView>,
    ds: Seq<ExternFnDef>,
)
    ensures
        match with_natives(m, id, natives, ds) {
            Err(e) => with_natives(moved_hashes(r, m), id, natives, ds) == Err::<
                Natives,
                ErrorView,
            >(e),
            Ok(_) => with_natives(moved_hashes(r, m), id, natives, ds) is Ok,
        },
    decreases ds.len(),
{
    if ds.len() > 0 {
        lemma_natives_fault(r, m, id, natives, ds.drop_last());
    }
}

/// Whether the temporary hashes of functions stay.
pub open spec fn keeps_temporaries(r: Map<Seq<u8>, Seq<u8>>) -> bool {
    forall|name: Seq<char>| !r.contains_key(#[trigger] temporary_hash(name))
}

/// Whether the hashes of objects stay.
pub open spec fn keeps_objects(r: Map<Seq<u8>, Seq<u8>>, objects: Set<ObjectView>) -> bool {
    forall|x: ObjectView| #[trigger] objects.contains(x) ==> !r.contains_key(object_hash(x))
}

/// Whether only hashes of imported functions move, and those in an orderly way.
pub open spec fn moves_imports(r: Map<Seq<u8>, Seq<u8>>, m: Module, o: OptionsView) -> bool {
    &&& keeps_temporaries(r)
    &&& linking(m, o) matches Ok(n) ==> keeps_objects(r, n.objects) && (tables_of(
        m,
        o.env,
        n.hashes,
    ) matches Ok(t) ==> moves_well(r, t))
}

/// What options become where the hashes of imported functions have moved.
pub open spec fn moved_options(r: Map<Seq<u8>, Seq<u8>>, o: OptionsView) -> OptionsView {
    OptionsView { imported: moved_hashes(r, o.imported), ..o }
}

/// Whether a symbolic form is another with the hashes moved.
pub open spec fn moved_form(r: Map<Seq<u8>, Seq<u8>>, a: FormView, b: FormView) -> bool {
    &&& (FormView { functions: b.functions, lambdas: b.lambdas, ..a }) == b
    &&& b.functions == moved_functions(r, a.functions)
    &&& moved_lambda_code(r, a.lambdas, b.lambdas)
}

proof fn lemma_impl_symbols(ms: Seq<(ImplDef, ImplMethod)>, i: int)
    requires
        impl_symbols(ms) is Ok,
        0 <= i < ms.len(),
    ensures
        impl_symbols(ms)->Ok_0.len() == ms.len(),
        ms[i].1.resolved_symbol matches Some(s) && impl_symbols(ms)->Ok_0[i] == s@,
    decreases ms.len(),
{
    let rest = ms.drop_last();
    if i < rest.len() {
        lemma_impl_symbols(rest, i);
    } else if rest.len() > 0 {
        lemma_impl_symbols(rest, 0);
    }
}

/// Linking keeps step with moving the hashes, and the module's own functions
/// stay.
proof fn lemma_linking(r: Map<Seq<u8>, Seq<u8>>, m: Module, o: OptionsView)
    requires
        keeps_temporaries(r),
        linking(m, o) matches Ok(n) ==> keeps_objects(r, n.objects),
    ensures
        match linking(m, o) {
            Err(e) => linking(m, moved_options(r, o)) == Err::<Natives, ErrorView>(e),
            Ok(n) => {
                &&& linking(m, moved_options(r, o)) == Ok::<Natives, ErrorView>(
                    Natives { hashes: moved_hashes(r, n.hashes), ..n },
                )
                &&& forall|i: int|
                    0 <= i < all_functions(m.items@).len() ==> stays(
                        r,
                        n.hashes,
                        own_key(o.env.module_id, (#[trigger] all_functions(m.items@)[i]).name@),
                    )
                &&& forall|i: int|
                    0 <= i < impl_methods(all_impls(m.items@)).len() ==> ((
                    #[trigger] impl_methods(
                        all_impls(m.items@),
                    )[i]).1.resolved_symbol matches Some(s) ==> stays(
                        r,
                        n.hashes,
                        KeyView::Bare(s@),
                    ))
                &&& forall|i: int|
                    0 <= i < ability_methods(all_abilities(m.items@)).len() ==> stays(
                        r,
                        n.hashes,
                        KeyView::Bare(
                            impl_symbol(
                                (#[trigger] ability_methods(all_abilities(m.items@))[i]).0.uuid@,
                                ability_methods(all_abilities(m.items@))[i].1.name@,
                            ),
                        ),
                    )
            },
        },
{
    let items = m.items@;
    let id = o.env.module_id;
    let fs = all_functions(items);
    let es = all_externs(items);
    let ims = impl_methods(all_impls(items));
    let ams = ability_methods(all_abilities(items));
    let natives = o.env.extern_natives;
    lemma_with_functions(r, o.imported, id, fs);
    let first = with_functions(o.imported, id, fs);
    lemma_natives_fault(r, first, id, natives, es);
    if let Ok(n) = with_natives(first, id, natives, es) {
        if let Ok(symbols) = impl_symbols(ims) {
            lemma_with_natives(r, first, id, natives, es);
            let own = ability_symbols(ams);
            let second = with_symbols(n.hashes, own);
            let last = with_symbols(second, symbols);
            lemma_with_symbols(r, n.hashes, own);
            lemma_with_symbols(r, second, symbols);
            assert forall|i: int| 0 <= i < fs.len() implies stays(
                r,
                last,
                own_key(id, (#[trigger] fs[i]).name@),
            ) by {
                assert(stays(r, first, own_key(id, fs[i].name@)));
                assert(stays(r, n.hashes, own_key(id, fs[i].name@)));
                assert(stays(r, second, own_key(id, fs[i].name@)));
            }
            assert forall|i: int| 0 <= i < ims.len() implies ((
            #[trigger] ims[i]).1.resolved_symbol matches Some(s) ==> stays(
                r,
                last,
                KeyView::Bare(s@),
            )) by {
                lemma_impl_symbols(ims, i);
                assert(stays(r, last, KeyView::Bare(symbols[i])));
            }
            assert forall|i: int| 0 <= i < ams.len() implies stays(
                r,
                last,
                KeyView::Bare(impl_symbol((#[trigger] ams[i]).0.uuid@, ams[i].1.name@)),
            ) by {
                assert(stays(r, second, KeyView::Bare(own[i])));
            }
        }
    }
}

/// Compiling a module again after the hashes of functions that it imports have
/// moved gives its symbolic form with those hashes moved, or the same error: the
/// rest of the form does not depend on them.
pub proof fn recompiling_moves_the_form(r: Map<Seq<u8>, Seq<u8>>, m: Module, o: OptionsView)
    requires
        moves_imports(r, m, o),
    ensures
        match symbolic_form(m, o) {
            Err(e) => symbolic_form(m, moved_options(r, o)) == Err::<FormView, ErrorView>(e),
            Ok(a) => symbolic_form(m, moved_options(r, o)) matches Ok(b) && moved_form(r, a, b),
        },
{
    lemma_linking(r, m, o);
    if let Ok(n) = linking(m, o) {
        if let Ok(t) = tables_of(m, o.env, n.hashes) {
            let u = moved_tables(r, t);
            assert(tables_of(m, o.env, moved_hashes(r, n.hashes)) == Ok::<TablesView, ErrorView>(
                u,
            ));
            let fs = all_functions(m.items@);
            let ims = impl_methods(all_impls(m.items@));
            let ams = ability_methods(all_abilities(m.items@));
            lemma_function_bodies(r, t, fs, o.origin);
            if let Ok(a) = function_bodies(t, fs, o.origin) {
                let b = function_bodies(u, fs, o.origin)->Ok_0;
                lemma_impl_bodies(r, t, ims, o.origin, a, b);
                if let Ok(c) = impl_bodies(t, ims, o.origin, a) {
                    let d = impl_bodies(u, ims, o.origin, b)->Ok_0;
                    lemma_ability_bodies(r, t, ams, o.origin, c, d);
                }
            }
        }
    }
}

} // verus!
