//! What compiled functions give: for arguments, the value of their body with the
//! parameters bound to them.

use vstd::prelude::*;

use crate::ast::{
    AbilityDef, AbilityMethod, Expr, FunctionDef, ImplDef, ImplMethod, Item, ItemKind, Param, TypeParam,
};
use crate::bytecode::FunctionView;
use crate::compiler::code::{lowered_code, Op, Opcode};
use crate::compiler::codegen::{expr_code, with_params};
use crate::compiler::context::{
    assoc_get, empty_scope, function_hash, lemma_assoc_at, with_local, Produced, Scope, TablesView,
};
use crate::compiler::dicts::Gen;
use crate::compiler::entry::{function_bodies, no_bodies};
use crate::compiler::error::ErrorView;
use crate::compiler::execution::{
    holds_env, in_scope, lemma_bind, expressions_leave_their_value, lemma_expr_scope, lemma_placed,
};
use crate::compiler::functions::{
    ability_method_body, body_function, body_scope, dict_label, dict_params, function_body,
    impl_method_body, with_dicts, Origin, Signature,
};
use crate::compiler::language::{making, plain, value, Env, Made};
use crate::compiler::machine::{first_locals, run, run_function, Frame, Host, Outcome, Val};
use crate::compiler::repl::{
    compiled_item, expression_function, session_function, session_tables, ReplItemKind, ReplView,
};
use crate::compiler::tables::own_key;

verus! {

// ── functions ───────────────────────────────────────────────────────────────

/// Arguments under the bindings of parameters.
pub open spec fn bound(params: Seq<Param>, args: Seq<Val>) -> Env
    decreases params.len(),
{
    if params.len() == 0 {
        Map::empty()
    } else {
        bound(params.drop_last(), args).insert(params.last().id, args[params.len() - 1])
    }
}

/// The bindings of parameters; nothing where two of them are the same binding.
pub open spec fn made_by(params: Seq<Param>) -> Option<Made>
    decreases params.len(),
{
    if params.len() == 0 {
        Some(Made { ids: Set::empty(), names: Set::empty() })
    } else {
        match made_by(params.drop_last()) {
            Some(b) => making(b, params.last().id, params.last().name@),
            None => None,
        }
    }
}

/// Parameters are the first locals, in their order.
pub proof fn parameters_are_the_first_locals(params: Seq<Param>)
    requires
        with_params(empty_scope(), params) is Ok,
        made_by(params) is Some,
    ensures
        ({
            let s = with_params(empty_scope(), params)->Ok_0;
            &&& s.next_local == params.len()
            &&& forall|i: int|
                0 <= i < params.len() ==> assoc_get(s.locals, (#[trigger] params[i]).id) == Some(
                    i as u16,
                )
            &&& in_scope(s, made_by(params)->0)
        }),
    decreases params.len(),
{
    if params.len() > 0 {
        let before = params.drop_last();
        parameters_are_the_first_locals(before);
        let s = with_params(empty_scope(), before)->Ok_0;
        let b = made_by(before)->0;
        let p = params.last();
        let r = with_local(s, p.id, p.name@)->Ok_0;
        lemma_bind(s, b, p.id, p.name@);
        assert forall|i: int| 0 <= i < params.len() implies assoc_get(
            r.locals,
            (#[trigger] params[i]).id,
        ) == Some(i as u16) by {
            if i < before.len() {
                assert(before[i] == params[i]);
                assert(assoc_get(s.locals, before[i].id) is Some);
            }
        }
    } else {
        let s = empty_scope();
        assert forall|id: u32| (#[trigger] assoc_get(s.locals, id)) is None by {
            lemma_assoc_at(s.locals, id);
        }
        assert forall|n: Seq<char>| (#[trigger] assoc_get(s.local_names, n)) is None by {
            lemma_assoc_at(s.local_names, n);
        }
    }
}

proof fn lemma_arguments_held(params: Seq<Param>, all: Seq<Param>, args: Seq<Val>)
    requires
        with_params(empty_scope(), all) is Ok,
        made_by(all) is Some,
        args.len() == all.len(),
        params.len() <= all.len(),
        params == all.take(params.len() as int),
    ensures
        holds_env(
            with_params(empty_scope(), all)->Ok_0,
            bound(params, args),
            Frame { locals: first_locals(args), captures: seq![] },
        ),
    decreases params.len(),
{
    if params.len() > 0 {
        let before = params.drop_last();
        assert(before =~= all.take(before.len() as int));
        lemma_arguments_held(before, all, args);
        parameters_are_the_first_locals(all);
        let s = with_params(empty_scope(), all)->Ok_0;
        let i = params.len() - 1;
        let p = params.last();
        assert(all[i] == p);
        let env = bound(params, args);
        let locals = first_locals(args);
        assert(locals.contains_key(i as u16) && locals[i as u16] == args[i]);
        assert forall|id: u32| #[trigger] env.contains_key(id) implies (assoc_get(
            s.locals,
            id,
        ) matches Some(slot) && locals.contains_key(slot) && locals[slot] == env[id]) by {
            if id != p.id {
                assert(bound(before, args).contains_key(id));
            }
        }
    }
}

/// A function that returns what its body leaves gives, for arguments, the value of
/// its body with the parameters bound to them, be the body in tail position or not.
pub proof fn functions_give_the_value_of_their_body(
    m: Host,
    t: TablesView,
    params: Seq<Param>,
    body: Expr,
    out: Produced,
    tail: bool,
    args: Seq<Val>,
)
    requires
        args.len() == params.len(),
        made_by(params) is Some,
        plain(t, body, made_by(params)->0) is Some,
        value(m, t, body, bound(params, args)) is Some,
        with_params(empty_scope(), params) is Ok,
        expr_code(
            t,
            body,
            Gen { scope: with_params(empty_scope(), params)->Ok_0, out },
            tail,
        ) is Ok,
    ensures
        ({
            let scope = with_params(empty_scope(), params)->Ok_0;
            let code = expr_code(t, body, Gen { scope, out }, tail)->Ok_0.0;
            run_function(m, code.push(Op::Plain(Opcode::Return)), args, seq![])
                == Outcome::Returned(value(m, t, body, bound(params, args))->0)
        }),
{
    let scope = with_params(empty_scope(), params)->Ok_0;
    let code = expr_code(t, body, Gen { scope, out }, tail)->Ok_0.0;
    let end = Op::Plain(Opcode::Return);
    let w = code.push(end);
    let env = bound(params, args);
    let v = value(m, t, body, env)->0;
    let f = Frame { locals: first_locals(args), captures: seq![] };
    assert(params =~= params.take(params.len() as int));
    parameters_are_the_first_locals(params);
    lemma_arguments_held(params, params, args);
    assert(w =~= code + seq![end]);
    lemma_placed(w, 0, code, seq![end]);
    let r = expressions_leave_their_value(
        m,
        t,
        body,
        Gen { scope, out },
        tail,
        made_by(params)->0,
        env,
        w,
        0,
        seq![],
        f,
    );
    assert(w[code.len() as int] == end);
    assert(run(m, w, code.len() as int, seq![].push(v), r) == Outcome::Returned(v)) by {
        reveal(run);
    }
}

/// A compiled function gives, for arguments, the value of its body with the
/// parameters bound to them. It takes as many arguments as it has parameters.
pub proof fn compiled_functions_give_the_value_of_their_body(
    m: Host,
    t: TablesView,
    sig: Signature,
    body: Expr,
    hash: Seq<u8>,
    name: Seq<char>,
    o: Origin,
    out: Produced,
    args: Seq<Val>,
) -> (code: Seq<Op>)
    requires
        body_function(t, sig, body, hash, name, o, out) is Ok,
        sig.receiver is None,
        sig.dicts.len() == 0,
        args.len() == body_function(t, sig, body, hash, name, o, out)->Ok_0.0.param_count,
        sig.params.len() <= u8::MAX,
        made_by(sig.params) is Some,
        plain(t, body, made_by(sig.params)->0) is Some,
        value(m, t, body, bound(sig.params, args)) is Some,
    ensures
        lowered_code(code) is Ok,
        ({
            let f = body_function(t, sig, body, hash, name, o, out)->Ok_0.0;
            let l = lowered_code(code)->Ok_0;
            &&& f.bytecode == l.bytecode && f.constants == l.constants
            &&& f.dependencies == l.dependencies
            &&& args.len() == sig.params.len()
        }),
        run_function(m, code, args, seq![]) == Outcome::Returned(
            value(m, t, body, bound(sig.params, args))->0,
        ),
{
    let scope = with_params(empty_scope(), sig.params)->Ok_0;
    assert(with_params(empty_scope(), sig.params) is Ok);
    assert(with_dicts(scope, 0, sig.dicts) == Ok::<Scope, ErrorView>(scope));
    functions_give_the_value_of_their_body(m, t, sig.params, body, out, true, args);
    let code = expr_code(t, body, Gen { scope, out }, true)->Ok_0.0;
    code.push(Op::Plain(Opcode::Return))
}

// ── how many parameters ─────────────────────────────────────────────────────

/// The number of trait bounds of type parameters.
pub open spec fn bound_count(ps: Seq<TypeParam>) -> nat
    decreases ps.len(),
{
    if ps.len() == 0 {
        0
    } else {
        bound_count(ps.drop_last()) + ps.last().bounds@.len()
    }
}

/// A function takes one dictionary for each trait bound.
pub proof fn dictionaries_come_from_bounds(ps: Seq<TypeParam>)
    ensures
        dict_params(ps).len() == bound_count(ps),
    decreases ps.len(),
{
    if ps.len() > 0 {
        dictionaries_come_from_bounds(ps.drop_last());
    }
}

/// A scope with locals for parameters has them behind its other locals, each under
/// its name.
proof fn lemma_parameters_follow(s: Scope, params: Seq<Param>)
    requires
        with_params(s, params) is Ok,
    ensures
        ({
            let r = with_params(s, params)->Ok_0;
            &&& r.next_local == s.next_local + params.len()
            &&& r.slot_names == s.slot_names + Seq::new(
                params.len(),
                |i: int| ((s.next_local + i) as u16, params[i].name@),
            )
        }),
    decreases params.len(),
{
    let r = with_params(s, params)->Ok_0;
    if params.len() > 0 {
        let rest = params.drop_last();
        lemma_parameters_follow(s, rest);
    }
    assert(r.slot_names =~= s.slot_names + Seq::new(
        params.len(),
        |i: int| ((s.next_local + i) as u16, params[i].name@),
    ));
}

proof fn lemma_dictionaries_follow(s: Scope, from: nat, ds: Seq<(Seq<char>, Seq<char>)>)
    requires
        with_dicts(s, from, ds) is Ok,
    ensures
        ({
            let r = with_dicts(s, from, ds)->Ok_0;
            &&& r.next_local == s.next_local + ds.len()
            &&& r.slot_names == s.slot_names + Seq::new(
                ds.len(),
                |i: int| ((s.next_local + i) as u16, dict_label(ds[i].0, ds[i].1)),
            )
        }),
    decreases ds.len(),
{
    let r = with_dicts(s, from, ds)->Ok_0;
    if ds.len() > 0 {
        lemma_dictionaries_follow(s, from, ds.drop_last());
    }
    assert(r.slot_names =~= s.slot_names + Seq::new(
        ds.len(),
        |i: int| ((s.next_local + i) as u16, dict_label(ds[i].0, ds[i].1)),
    ));
}

/// A function begins with a local for each of its parameters: the receiver, then
/// those that it declares, in their order and under their names, then the
/// dictionaries.
pub proof fn parameters_come_in_order(sig: Signature)
    requires
        body_scope(sig) is Ok,
    ensures
        ({
            let s = body_scope(sig)->Ok_0;
            let first: int = if sig.receiver is Some {
                1
            } else {
                0
            };
            &&& s.next_local == first + sig.params.len() + sig.dicts.len()
            &&& s.slot_names.len() == s.next_local
            &&& forall|k: int| 0 <= k < s.slot_names.len() ==> (#[trigger] s.slot_names[k]).0 == k
            &&& sig.receiver is Some ==> s.slot_names[0].1 == "self"@
            &&& forall|i: int|
                0 <= i < sig.params.len() ==> s.slot_names[first + i].1 == (
                #[trigger] sig.params[i]).name@
        }),
{
    let a = match sig.receiver {
        Some(id) => with_local(empty_scope(), id, "self"@)->Ok_0,
        None => empty_scope(),
    };
    let b = with_params(a, sig.params)->Ok_0;
    lemma_parameters_follow(a, sig.params);
    lemma_dictionaries_follow(b, 0, sig.dicts);
}

/// A compiled function has as many parameters as it begins with locals.
pub proof fn functions_take_the_locals_they_begin_with(
    t: TablesView,
    sig: Signature,
    body: Expr,
    hash: Seq<u8>,
    name: Seq<char>,
    o: Origin,
    out: Produced,
)
    requires
        body_function(t, sig, body, hash, name, o, out) is Ok,
        body_scope(sig)->Ok_0.next_local <= u8::MAX,
    ensures
        body_function(t, sig, body, hash, name, o, out)->Ok_0.0.param_count == body_scope(
            sig,
        )->Ok_0.next_local,
        body_function(t, sig, body, hash, name, o, out)->Ok_0.0.hash == hash,
{
    parameters_come_in_order(sig);
}

/// A method of an impl takes its receiver where it declares one, what it declares,
/// and a dictionary for each trait bound of the impl and of its own. The default
/// implementation of a method of an ability takes no receiver.
pub proof fn methods_take_what_they_declare(
    t: TablesView,
    d: ImplDef,
    m: ImplMethod,
    a: AbilityDef,
    n: AbilityMethod,
    symbol: Seq<char>,
    o: Origin,
    out: Produced,
)
    ensures
        impl_method_body(t, d, m, o, out) matches Ok((f, _)) ==> {
            let count = m.params@.len() + bound_count(d.type_params@) + bound_count(
                m.type_params@,
            ) + (if m.has_self {
                1int
            } else {
                0int
            });
            count <= u8::MAX ==> f.param_count == count
        },
        ability_method_body(t, a, n, symbol, o, out) matches Ok((f, _)) ==> {
            let count = n.params@.len() + bound_count(n.type_params@);
            count <= u8::MAX ==> f.param_count == count
        },
{
    dictionaries_come_from_bounds(d.type_params@);
    dictionaries_come_from_bounds(m.type_params@);
    dictionaries_come_from_bounds(n.type_params@);
}

/// Compiling the functions of a module gives each of them, in their order, under its
/// name and its temporary hash. Only one named `run` is the entry point.
pub proof fn every_function_is_compiled(
    t: TablesView,
    fs: Seq<FunctionDef>,
    o: Origin,
    i: int,
)
    requires
        function_bodies(t, fs, o) is Ok,
        0 <= i < fs.len(),
    ensures
        ({
            let all = function_bodies(t, fs, o)->Ok_0.functions;
            let (name, f, main) = all[i];
            &&& all.len() == fs.len()
            &&& name == fs[i].name@
            &&& main <==> name == "run"@
            &&& function_hash(t, own_key(t.module_id, name)) == Some(f.hash)
            &&& fs[i].params@.len() + bound_count(fs[i].type_params@) <= u8::MAX ==> f.param_count
                == fs[i].params@.len() + bound_count(fs[i].type_params@)
        }),
    decreases fs.len(),
{
    let rest = fs.drop_last();
    assert(function_bodies(t, rest, o) is Ok);
    if rest.len() > 0 {
        every_function_is_compiled(
            t,
            rest,
            o,
            if i < rest.len() {
                i
            } else {
                0
            },
        );
    } else {
        assert(function_bodies(t, rest, o)->Ok_0.functions.len() == 0);
    }
    if i < rest.len() {
        assert(rest[i] == fs[i]);
    } else {
        dictionaries_come_from_bounds(fs[i].type_params@);
    }
}

/// A named function of a module has a parameter for each that its definition
/// declares and for each of its trait bounds.
pub proof fn functions_take_what_they_declare(
    t: TablesView,
    d: FunctionDef,
    o: Origin,
    out: Produced,
)
    requires
        function_body(t, d, o, out) is Ok,
        d.params@.len() + bound_count(d.type_params@) <= u8::MAX,
    ensures
        function_body(t, d, o, out)->Ok_0.0.param_count == d.params@.len() + bound_count(
            d.type_params@,
        ),
{
    dictionaries_come_from_bounds(d.type_params@);
}

/// A named function of a session has as many parameters as its definition declares,
/// the same number as the function that a module with that definition has, and they
/// are its first locals.
pub proof fn session_functions_take_what_they_declare(
    t: TablesView,
    u: TablesView,
    d: FunctionDef,
    o: Origin,
    out: Produced,
)
    requires
        session_function(t, d) is Ok,
        d.params@.len() <= u8::MAX,
    ensures
        ({
            let f = session_function(t, d)->Ok_0;
            &&& f.param_count == d.params@.len()
            &&& bound_count(d.type_params@) == 0 ==> (function_body(u, d, o, out) matches Ok((g, _))
                ==> g.param_count == f.param_count)
            &&& made_by(d.params@) is Some ==> forall|i: int|
                0 <= i < f.param_count ==> assoc_get(
                    with_params(empty_scope(), d.params@)->Ok_0.locals,
                    (#[trigger] d.params@[i]).id,
                ) == Some(i as u16)
        }),
{
    dictionaries_come_from_bounds(d.type_params@);
    if made_by(d.params@) is Some {
        parameters_are_the_first_locals(d.params@);
    }
}

/// What a definition of a session becomes has its name and its kind. A function
/// takes the parameters that the definition declares, and its body calls it by its
/// name under the hash that it gets; a constant takes no parameters.
pub proof fn session_definitions_become_what_they_declare(v: ReplView, item: Item)
    requires
        compiled_item(v, item) is Ok,
    ensures
        ({
            let (name, f, kind) = compiled_item(v, item)->Ok_0;
            match item.kind {
                ItemKind::Function(d) => name == d.name@ && kind == ReplItemKind::Function && (
                d.params@.len() <= u8::MAX ==> f.param_count == d.params@.len())
                    && session_function(
                    session_tables(ReplView { hashes: v.hashes.insert(name, f.hash), ..v }),
                    d,
                ) == Ok::<FunctionView, ErrorView>(f),
                ItemKind::Const(d) => name == d.name@ && kind == ReplItemKind::Constant
                    && f.param_count == 0,
                _ => false,
            }
        }),
{
}

// ── sessions ────────────────────────────────────────────────────────────────

/// A named function of a session gives, for as many arguments as it has parameters,
/// the value of its body with the parameters bound to them. Its locals have room for
/// them.
pub proof fn session_functions_give_the_value_of_their_body(
    m: Host,
    t: TablesView,
    d: FunctionDef,
    args: Seq<Val>,
) -> (code: Seq<Op>)
    requires
        session_function(t, d) is Ok,
        d.params@.len() <= u8::MAX,
        args.len() == session_function(t, d)->Ok_0.param_count,
        made_by(d.params@) is Some,
        plain(t, d.body, made_by(d.params@)->0) is Some,
        value(m, t, d.body, bound(d.params@, args)) is Some,
    ensures
        lowered_code(code) is Ok,
        ({
            let f = session_function(t, d)->Ok_0;
            let l = lowered_code(code)->Ok_0;
            &&& f.bytecode == l.bytecode && f.constants == l.constants
            &&& f.dependencies == l.dependencies
            &&& f.param_count <= f.local_count
        }),
        run_function(m, code, args, seq![]) == Outcome::Returned(
            value(m, t, d.body, bound(d.params@, args))->0,
        ),
{
    let out = no_bodies().out;
    let scope = with_params(empty_scope(), d.params@)->Ok_0;
    parameters_are_the_first_locals(d.params@);
    lemma_expr_scope(t, d.body, Gen { scope, out }, false, made_by(d.params@)->0);
    functions_give_the_value_of_their_body(m, t, d.params@, d.body, out, false, args);
    let code = expr_code(t, d.body, Gen { scope, out }, false)->Ok_0.0;
    code.push(Op::Plain(Opcode::Return))
}

/// An expression that is entered in a session, or a constant that is defined in one,
/// gives its value.
pub proof fn session_expressions_give_their_value(m: Host, t: TablesView, e: Expr) -> (code: Seq<
    Op,
>)
    requires
        expression_function(t, e) is Ok,
        plain(t, e, made_by(seq![])->0) is Some,
        value(m, t, e, Map::empty()) is Some,
    ensures
        lowered_code(code) is Ok,
        ({
            let f = expression_function(t, e)->Ok_0;
            let l = lowered_code(code)->Ok_0;
            &&& f.bytecode == l.bytecode && f.constants == l.constants
            &&& f.dependencies == l.dependencies && f.param_count == 0
        }),
        run_function(m, code, seq![], seq![]) == Outcome::Returned(
            value(m, t, e, Map::empty())->0,
        ),
{
    let out = no_bodies().out;
    let scope = empty_scope();
    let none = Seq::<Param>::empty();
    assert(with_params(scope, none) == Ok::<Scope, ErrorView>(scope));
    assert(bound(none, seq![]) == Map::<u32, Val>::empty());
    functions_give_the_value_of_their_body(m, t, none, e, out, false, seq![]);
    let code = expr_code(t, e, Gen { scope, out }, false)->Ok_0.0;
    code.push(Op::Plain(Opcode::Return))
}

} // verus!
