//! Code computes the values of expressions.
//!
//! Running the code of a plain expression leaves the value that the language gives
//! the expression, in every host.

use vstd::prelude::*;

use crate::ast::{
    name_key, BinaryOp, Expr, ExprKind, MatchArm, Pattern, PatternKind, ResolvedMethod, Stmt,
    StmtKind,
};
use crate::bytecode::ConstantView;
use crate::compiler::code::{Op, Opcode};
use crate::compiler::codegen::{
    adapted, arm_rest, arms_code, binary_code, block_code, call_code, call_op, closure_call_code,
    closure_op, expr_code, exprs_code, failing_past, fields_code, if_code, is_variable,
    keep_original, kind_code, match_code, method_call_code, name_code, operands_code, operator,
    perform_code, short_circuit_code, stmt_code, stmts_code,
};
use crate::compiler::context::{
    assoc_at, assoc_get, assoc_set, function_hash, lemma_assoc_at, lemma_assoc_found,
    variant_of, with_local, Scope, TablesView,
};
use crate::compiler::dicts::{Code, Gen};
use crate::compiler::language::{
    arms_value, field_map, fit, literal_value, making, plain, plain_all, plain_arms,
    plain_fields, plain_pattern, plain_stmt, plain_stmts, stmt_env, stmts_env,
    trait_operator_value, value, values, Env, Fit, Made,
};
use crate::compiler::machine::{
    constant_val, frame_effect, last, operators_compute_their_value, record_of, run,
    stack_effect, Frame, Host, Outcome, Val,
};
use crate::compiler::patterns::{drop_original, literal_constant, pattern_code};
use crate::fqn::KeyView;

verus! {

// ── scopes ──────────────────────────────────────────────────────────────────

/// Whether a scope is that of a function that captures nothing, with locals for the
/// bindings that were made.
pub open spec fn in_scope(s: Scope, b: Made) -> bool {
    &&& s.parent_locals is None
    &&& s.parent_local_names is None
    &&& s.captures.len() == 0
    &&& s.capture_names.len() == 0
    &&& s.block_consts.len() == 0
    &&& forall|id: u32| #[trigger] assoc_get(s.locals, id) is Some <==> b.ids.contains(id)
    &&& forall|id: u32|
        (#[trigger] assoc_get(s.locals, id)) matches Some(slot) ==> slot < s.next_local
    &&& forall|n: Seq<char>| (#[trigger] assoc_get(s.local_names, n)) is Some ==> b.names.contains(n)
}

/// Whether a scope has what another has, and may have more.
pub open spec fn grows(a: Scope, b: Scope) -> bool {
    &&& a.next_local <= b.next_local
    &&& forall|id: u32|
        (#[trigger] assoc_get(a.locals, id)) is Some ==> assoc_get(b.locals, id) == assoc_get(
            a.locals,
            id,
        )
}

/// Whether the locals of a function hold the values of an environment.
pub open spec fn holds_env(s: Scope, env: Env, f: Frame) -> bool {
    forall|id: u32| #[trigger]
        env.contains_key(id) ==> (assoc_get(s.locals, id) matches Some(slot)
            && f.locals.contains_key(slot) && f.locals[slot] == env[id])
}

/// Whether the locals below a slot are kept.
pub open spec fn keeps(f: Frame, g: Frame, below: u16) -> bool {
    &&& g.captures == f.captures
    &&& forall|i: u16|
        i < below && #[trigger] f.locals.contains_key(i) ==> g.locals.contains_key(i)
            && g.locals[i] == f.locals[i]
}

pub(crate) proof fn lemma_assoc<A, B>(s: Seq<(A, B)>, k: A, v: B, j: A)
    ensures
        assoc_get(assoc_set(s, k, v), j) == (if j == k {
            Some(v)
        } else {
            assoc_get(s, j)
        }),
{
    let t = assoc_set(s, k, v);
    lemma_assoc_at(s, k);
    lemma_assoc_at(s, j);
    let at = assoc_at(s, k);
    let old_at = assoc_at(s, j);
    if j == k {
        if at >= 0 {
            lemma_assoc_found(t, j, at);
        } else {
            lemma_assoc_found(t, j, s.len() as int);
        }
    } else {
        assert forall|i: int| old_at < i < t.len() && 0 <= i implies (#[trigger] t[i]).0 != j by {
            if i < s.len() {
                assert(s[i].0 != j || i == at);
            }
        }
        lemma_assoc_found(t, j, old_at);
    }
}

/// A binding that was not made before gets a local of its own.
pub(crate) proof fn lemma_bind(s: Scope, b: Made, id: u32, name: Seq<char>)
    requires
        in_scope(s, b),
        making(b, id, name) is Some,
        with_local(s, id, name) is Ok,
    ensures
        in_scope(with_local(s, id, name)->Ok_0, making(b, id, name)->0),
        grows(s, with_local(s, id, name)->Ok_0),
        assoc_get(with_local(s, id, name)->Ok_0.locals, id) == Some(s.next_local),
{
    let t = with_local(s, id, name)->Ok_0;
    let c = making(b, id, name)->0;
    assert forall|j: u32| #[trigger] assoc_get(t.locals, j) == (if j == id {
        Some(s.next_local)
    } else {
        assoc_get(s.locals, j)
    }) by {
        lemma_assoc(s.locals, id, s.next_local, j);
    }
    assert forall|n: Seq<char>| (#[trigger] assoc_get(t.local_names, n)) is Some implies c.names.contains(
        n,
    ) by {
        lemma_assoc(s.local_names, name, s.next_local, n);
        if n != name {
            assert(assoc_get(s.local_names, n) is Some);
        }
    }
    assert forall|j: u32| #[trigger] assoc_get(t.locals, j) is Some <==> c.ids.contains(j) by {
        assert(assoc_get(s.locals, j) is Some <==> b.ids.contains(j));
    }
    assert forall|j: u32| (#[trigger] assoc_get(t.locals, j)) is Some implies assoc_get(
        t.locals,
        j,
    )->0 < t.next_local by {
        assert(assoc_get(s.locals, j) matches Some(x) ==> x < s.next_local);
    }
    assert forall|j: u32| (#[trigger] assoc_get(s.locals, j)) is Some implies assoc_get(
        t.locals,
        j,
    ) == assoc_get(s.locals, j) by {
        assert(b.ids.contains(j));
        assert(assoc_get(t.locals, j) == assoc_get(t.locals, j));
    }
}

proof fn lemma_grows(a: Scope, b: Scope, c: Scope)
    requires
        grows(a, b),
        grows(b, c),
    ensures
        grows(a, c),
{
    assert forall|id: u32| (#[trigger] assoc_get(a.locals, id)) is Some implies assoc_get(
        c.locals,
        id,
    ) == assoc_get(a.locals, id) by {
        assert(assoc_get(b.locals, id) is Some);
    }
}

proof fn lemma_keeps(f: Frame, g: Frame, h: Frame, below: u16, more: u16)
    requires
        keeps(f, g, below),
        keeps(g, h, more),
        below <= more,
    ensures
        keeps(f, h, below),
{
    assert forall|i: u16| i < below && #[trigger] f.locals.contains_key(
        i,
    ) implies h.locals.contains_key(i) && h.locals[i] == f.locals[i] by {
        assert(g.locals.contains_key(i));
    }
}

/// The values of an environment stay where they are while code runs that makes new
/// bindings.
proof fn lemma_env_kept(s: Scope, t: Scope, b: Made, env: Env, f: Frame, g: Frame)
    requires
        in_scope(s, b),
        grows(s, t),
        holds_env(s, env, f),
        keeps(f, g, s.next_local),
    ensures
        holds_env(t, env, g),
{
    assert forall|id: u32| #[trigger] env.contains_key(id) implies (assoc_get(
        t.locals,
        id,
    ) matches Some(slot) && g.locals.contains_key(slot) && g.locals[slot] == env[id]) by {
        let slot = assoc_get(s.locals, id)->0;
        assert(assoc_get(s.locals, id) is Some);
        assert(slot < s.next_local);
        assert(f.locals.contains_key(slot));
    }
}

/// A new binding is in the environment where its local has the value.
proof fn lemma_env_bound(s: Scope, b: Made, env: Env, f: Frame, id: u32, name: Seq<char>, v: Val)
    requires
        in_scope(s, b),
        making(b, id, name) is Some,
        with_local(s, id, name) is Ok,
        holds_env(s, env, f),
    ensures
        ({
            let g = Frame { locals: f.locals.insert(s.next_local, v), ..f };
            &&& holds_env(with_local(s, id, name)->Ok_0, env.insert(id, v), g)
            &&& keeps(f, g, s.next_local)
        }),
{
    let t = with_local(s, id, name)->Ok_0;
    let g = Frame { locals: f.locals.insert(s.next_local, v), ..f };
    lemma_bind(s, b, id, name);
    let e = env.insert(id, v);
    assert forall|j: u32| #[trigger] e.contains_key(j) implies (assoc_get(t.locals, j) matches Some(
        slot,
    ) && g.locals.contains_key(slot) && g.locals[slot] == e[j]) by {
        if j != id {
            assert(env.contains_key(j));
            assert(assoc_get(s.locals, j) is Some);
            assert(assoc_get(s.locals, j)->0 < s.next_local);
        }
    }
}

// ── what stays of a scope ───────────────────────────────────────────────────

/// What a plain part of the source comes to, as far as its bindings go.
pub open spec fn binds_well(g: Gen, c: Code, b: Option<Made>) -> bool {
    c matches Ok((_, h)) ==> (b matches Some(d) ==> in_scope(h.scope, d) && grows(g.scope, h.scope))
}

proof fn lemma_name_scope(t: TablesView, e: Expr, g: Gen, b: Made)
    requires
        e.kind is Name,
        plain(t, e, b) is Some,
        in_scope(g.scope, b),
    ensures
        !is_variable(g.scope, e.kind->Name_0),
        name_code(t, e, e.kind->Name_0, g) matches Ok((_, h)) ==> h == g,
{
    let n = e.kind->Name_0;
    if n.bare() {
        lemma_assoc_at(g.scope.capture_names, n.name@);
        assert(assoc_get(g.scope.local_names, n.name@) is Some ==> b.names.contains(n.name@));
    }
}

pub(crate) proof fn lemma_expr_scope(t: TablesView, e: Expr, g: Gen, tail: bool, b: Made)
    requires
        plain(t, e, b) is Some,
        in_scope(g.scope, b),
    ensures
        binds_well(g, expr_code(t, e, g, tail), plain(t, e, b)),
    decreases e, 3int, 0int,
{
    if expr_code(t, e, g, tail) is Ok {
        assert(kind_code(t, e, g, tail) is Ok);
        match e.kind {
            ExprKind::Local(id) => {
                lemma_assoc_at(g.scope.captures, id);
            },
            ExprKind::Name(n) => {
                lemma_name_scope(t, e, g, b);
            },
            ExprKind::Tuple(es) => {
                lemma_exprs_scope(t, es@, g, b);
            },
            ExprKind::List(es) => {
                lemma_exprs_scope(t, es@, g, b);
            },
            ExprKind::TupleIndex(x, _) => {
                lemma_expr_scope(t, *x, g, false, b);
            },
            ExprKind::Record(fields) => {
                lemma_fields_scope(t, fields@, g, b);
            },
            ExprKind::TypedRecord { name: _, fields } => {
                lemma_fields_scope(t, fields@, g, b);
            },
            ExprKind::RecordField(x, _) => {
                lemma_expr_scope(t, *x, g, false, b);
            },
            ExprKind::Binary { op, left, right, resolved_op } => {
                assert(binary_code(t, e, g, tail) is Ok);
                let c = plain(t, *left, b)->0;
                lemma_expr_scope(t, *left, g, false, b);
                if op == BinaryOp::And || op == BinaryOp::Or {
                    assert(short_circuit_code(t, e, g, tail) is Ok);
                    let h = expr_code(t, *left, g, false)->Ok_0.1;
                    lemma_expr_scope(t, *right, h, tail, c);
                    let k = expr_code(t, *right, h, tail)->Ok_0.1;
                    lemma_grows(g.scope, h.scope, k.scope);
                } else {
                    assert(operands_code(t, e, g) is Ok);
                    let h = expr_code(t, *left, g, false)->Ok_0.1;
                    lemma_expr_scope(t, *right, h, false, c);
                    let k = expr_code(t, *right, h, false)->Ok_0.1;
                    lemma_grows(g.scope, h.scope, k.scope);
                }
            },
            ExprKind::Unary(_, x) => {
                lemma_expr_scope(t, *x, g, false, b);
            },
            ExprKind::If(c, yes, no) => {
                assert(if_code(t, e, g, tail) is Ok);
                lemma_expr_scope(t, *c, g, false, b);
                let b1 = plain(t, *c, b)->0;
                let h = expr_code(t, *c, g, false)->Ok_0.1;
                lemma_expr_scope(t, *yes, h, tail, b1);
                let b2 = plain(t, *yes, b1)->0;
                let k = expr_code(t, *yes, h, tail)->Ok_0.1;
                lemma_grows(g.scope, h.scope, k.scope);
                if let Some(n) = no {
                    lemma_expr_scope(t, *n, k, tail, b2);
                    lemma_grows(g.scope, k.scope, expr_code(t, *n, k, tail)->Ok_0.1.scope);
                }
            },
            ExprKind::Match(x, arms) => {
                assert(match_code(t, e, g, tail) is Ok);
                lemma_expr_scope(t, *x, g, false, b);
                let b1 = plain(t, *x, b)->0;
                let h = expr_code(t, *x, g, false)->Ok_0.1;
                lemma_arms_scope(t, arms@, 0, h, tail, b1);
                lemma_grows(g.scope, h.scope, arms_code(t, arms@, 0, h, tail)->Ok_0.1.scope);
            },
            ExprKind::Block(stmts, result) => {
                assert(block_code(t, e, g, tail) is Ok);
                lemma_stmts_scope(t, stmts@, g, b);
                let c = plain_stmts(t, stmts@, b)->0;
                let h = stmts_code(t, stmts@, g)->Ok_0.1;
                if let Some(r) = result {
                    lemma_expr_scope(t, *r, h, tail, c);
                    lemma_grows(g.scope, h.scope, expr_code(t, *r, h, tail)->Ok_0.1.scope);
                }
            },
            ExprKind::Call(f, args) => {
                assert(call_code(t, e, g, tail) is Ok);
                if let ExprKind::Name(n) = f.kind {
                    lemma_name_scope(t, *f, g, b);
                    if function_hash(t, name_key(n)) is Some {
                        lemma_exprs_scope(t, args@, g, b);
                    } else if variant_of(t, n) is Some {
                        assert(args@.drop_last() =~= seq![]);
                        assert(plain_all(t, seq![], b) == Some(b));
                        lemma_expr_scope(t, args@[0], g, false, b);
                    } else {
                        assert(closure_call_code(t, e, g, tail) is Ok);
                        lemma_expr_scope(t, *f, g, false, b);
                        let h = expr_code(t, *f, g, false)->Ok_0.1;
                        lemma_exprs_scope(t, args@, h, b);
                        lemma_grows(g.scope, h.scope, exprs_code(t, args@, h)->Ok_0.1.scope);
                    }
                } else {
                    assert(closure_call_code(t, e, g, tail) is Ok);
                    let c = plain(t, *f, b)->0;
                    lemma_expr_scope(t, *f, g, false, b);
                    let h = expr_code(t, *f, g, false)->Ok_0.1;
                    lemma_exprs_scope(t, args@, h, c);
                    lemma_grows(g.scope, h.scope, exprs_code(t, args@, h)->Ok_0.1.scope);
                }
            },
            ExprKind::MethodCall { receiver, method: _, args, resolved_method } => {
                assert(method_call_code(t, e, g, tail) is Ok);
                let c = plain(t, *receiver, b)->0;
                lemma_expr_scope(t, *receiver, g, false, b);
                let h = expr_code(t, *receiver, g, false)->Ok_0.1;
                lemma_exprs_scope(t, args@, h, c);
                lemma_grows(g.scope, h.scope, exprs_code(t, args@, h)->Ok_0.1.scope);
            },
            ExprKind::Perform(c) => {
                assert(perform_code(t, e, g) is Ok);
                lemma_exprs_scope(t, c.args@, g, b);
            },
            ExprKind::Sandbox(s) => {
                lemma_expr_scope(t, *s.body, g, tail, b);
            },
            _ => {},
        }
    }
}

proof fn lemma_exprs_scope(t: TablesView, es: Seq<Expr>, g: Gen, b: Made)
    requires
        plain_all(t, es, b) is Some,
        in_scope(g.scope, b),
    ensures
        binds_well(g, exprs_code(t, es, g), plain_all(t, es, b)),
    decreases es, 0int, es.len(),
{
    if es.len() > 0 && exprs_code(t, es, g) is Ok {
        lemma_exprs_scope(t, es.drop_last(), g, b);
        let c = plain_all(t, es.drop_last(), b)->0;
        let h = exprs_code(t, es.drop_last(), g)->Ok_0.1;
        lemma_expr_scope(t, es.last(), h, false, c);
        lemma_grows(g.scope, h.scope, expr_code(t, es.last(), h, false)->Ok_0.1.scope);
    }
}

proof fn lemma_fields_scope(t: TablesView, fields: Seq<(String, Expr)>, g: Gen, b: Made)
    requires
        plain_fields(t, fields, b) is Some,
        in_scope(g.scope, b),
    ensures
        binds_well(g, fields_code(t, fields, g), plain_fields(t, fields, b)),
    decreases fields, 0int, fields.len(),
{
    if fields.len() > 0 && fields_code(t, fields, g) is Ok {
        lemma_fields_scope(t, fields.drop_last(), g, b);
        let c = plain_fields(t, fields.drop_last(), b)->0;
        let h = fields_code(t, fields.drop_last(), g)->Ok_0.1;
        lemma_expr_scope(t, fields.last().1, h, false, c);
        lemma_grows(g.scope, h.scope, expr_code(t, fields.last().1, h, false)->Ok_0.1.scope);
    }
}

proof fn lemma_stmts_scope(t: TablesView, ss: Seq<Stmt>, g: Gen, b: Made)
    requires
        plain_stmts(t, ss, b) is Some,
        in_scope(g.scope, b),
    ensures
        binds_well(g, stmts_code(t, ss, g), plain_stmts(t, ss, b)),
    decreases ss, 0int, ss.len(),
{
    if ss.len() > 0 && stmts_code(t, ss, g) is Ok {
        lemma_stmts_scope(t, ss.drop_last(), g, b);
        let c = plain_stmts(t, ss.drop_last(), b)->0;
        let h = stmts_code(t, ss.drop_last(), g)->Ok_0.1;
        lemma_stmt_scope(t, ss.last(), h, c);
        lemma_grows(g.scope, h.scope, stmt_code(t, ss.last(), h)->Ok_0.1.scope);
    }
}

proof fn lemma_stmt_scope(t: TablesView, s: Stmt, g: Gen, b: Made)
    requires
        plain_stmt(t, s, b) is Some,
        in_scope(g.scope, b),
    ensures
        binds_well(g, stmt_code(t, s, g), plain_stmt(t, s, b)),
    decreases s, 1int, 0int,
{
    if stmt_code(t, s, g) is Ok {
        match s.kind {
            StmtKind::Let(l) => {
                lemma_expr_scope(t, l.init, g, false, b);
                let c = plain(t, l.init, b)->0;
                let h = expr_code(t, l.init, g, false)->Ok_0.1;
                lemma_bind(h.scope, c, l.id, l.name@);
                lemma_grows(g.scope, h.scope, with_local(h.scope, l.id, l.name@)->Ok_0);
            },
            StmtKind::Expr(e) => {
                lemma_expr_scope(t, e, g, false, b);
            },
            _ => {},
        }
    }
}

proof fn lemma_pattern_scope(t: TablesView, p: Pattern, is_last: bool, s: Scope, b: Made)
    requires
        plain_pattern(p, is_last, b) is Some,
        in_scope(s, b),
    ensures
        pattern_code(t, p, is_last, s) matches Ok(c) ==> in_scope(
            c.scope,
            plain_pattern(p, is_last, b)->0,
        ) && grows(s, c.scope),
{
    if pattern_code(t, p, is_last, s) is Ok {
        match p.kind {
            PatternKind::Binding(id, name) => {
                lemma_bind(s, b, id, name@);
            },
            PatternKind::Variant(_, Some(sub)) => {
                if let PatternKind::Binding(id, name) = sub.kind {
                    assert(pattern_code(t, *sub, true, s) is Ok);
                    lemma_bind(s, b, id, name@);
                }
            },
            _ => {},
        }
    }
}

proof fn lemma_arms_scope(t: TablesView, arms: Seq<MatchArm>, i: nat, g: Gen, tail: bool, b: Made)
    requires
        plain_arms(t, arms, i, b) is Some,
        in_scope(g.scope, b),
    ensures
        binds_well(g, arms_code(t, arms, i, g, tail), plain_arms(t, arms, i, b)),
    decreases arms, 0int, arms.len() - i,
{
    if i < arms.len() && arms_code(t, arms, i, g, tail) is Ok {
        let is_last = i == arms.len() - 1;
        let arm = arms[i as int];
        lemma_pattern_scope(t, arm.pattern, is_last, g.scope, b);
        let c = plain_pattern(arm.pattern, is_last, b)->0;
        let p = pattern_code(t, arm.pattern, is_last, g.scope)->Ok_0;
        let h = Gen { scope: p.scope, ..g };
        lemma_expr_scope(t, arm.body, h, tail, c);
        let d = plain(t, arm.body, c)->0;
        let k = expr_code(t, arm.body, h, tail)->Ok_0.1;
        lemma_grows(g.scope, h.scope, k.scope);
        lemma_arms_scope(t, arms, i + 1, k, tail, d);
        lemma_grows(g.scope, k.scope, arms_code(t, arms, i + 1, k, tail)->Ok_0.1.scope);
    }
}

// ── running code ────────────────────────────────────────────────────────────

/// Whether code stands at a place in other code.
pub open spec fn placed(w: Seq<Op>, pc: int, c: Seq<Op>) -> bool {
    0 <= pc && pc + c.len() <= w.len() && forall|j: int|
        pc <= j < pc + c.len() ==> #[trigger] w[j] == c[j - pc]
}

/// Whether running code, from a place on, leaves a value on the stack behind `n`
/// instructions; in tail position it may also be what the function gives.
pub open spec fn leaves(
    m: Host,
    w: Seq<Op>,
    pc: int,
    s: Seq<Val>,
    f: Frame,
    n: int,
    v: Val,
    g: Frame,
    tail: bool,
) -> bool {
    run(m, w, pc, s, f) == run(m, w, pc + n, s.push(v), g) || (tail && run(m, w, pc, s, f)
        == Outcome::Returned(v))
}

/// Whether a plain expression can be run: what it refers to has its place.
pub open spec fn can_run(t: TablesView, e: Expr, g: Gen, b: Made, env: Env, f: Frame) -> bool {
    plain(t, e, b) is Some && in_scope(g.scope, b) && holds_env(g.scope, env, f)
}

pub(crate) proof fn lemma_placed(w: Seq<Op>, pc: int, a: Seq<Op>, c: Seq<Op>)
    requires
        placed(w, pc, a + c),
    ensures
        placed(w, pc, a),
        placed(w, pc + a.len(), c),
{
    assert forall|j: int| pc <= j < pc + a.len() implies #[trigger] w[j] == a[j - pc] by {
        assert((a + c)[j - pc] == a[j - pc]);
    }
    assert forall|j: int| pc + a.len() <= j < pc + a.len() + c.len() implies #[trigger] w[j] == c[j
        - (pc + a.len())] by {
        assert((a + c)[j - pc] == c[j - pc - a.len()]);
    }
}

pub(crate) proof fn lemma_split(s: Seq<Val>, vs: Seq<Val>)
    ensures
        (s + vs).take((s + vs).len() - vs.len()) == s,
        last(s + vs, vs.len() as int) == vs,
{
    assert((s + vs).take((s + vs).len() - vs.len()) =~= s);
    assert(last(s + vs, vs.len() as int) =~= vs);
}

pub(crate) proof fn lemma_push(m: Host, w: Seq<Op>, pc: int, s: Seq<Val>, f: Frame, c: ConstantView)
    requires
        0 <= pc < w.len(),
        w[pc] == Op::Push(c),
        constant_val(c) is Some,
    ensures
        run(m, w, pc, s, f) == run(m, w, pc + 1, s.push(constant_val(c)->0), f),
{
    reveal(run);
    assert(s.take(s.len() - 0) =~= s);
}

proof fn lemma_pop(m: Host, w: Seq<Op>, pc: int, s: Seq<Val>, v: Val, f: Frame)
    requires
        0 <= pc < w.len(),
        w[pc] == Op::Plain(Opcode::Pop),
    ensures
        run(m, w, pc, s.push(v), f) == run(m, w, pc + 1, s, f),
{
    reveal(run);
    assert(s.push(v).drop_last() =~= s);
}

proof fn lemma_dup(m: Host, w: Seq<Op>, pc: int, s: Seq<Val>, v: Val, f: Frame)
    requires
        0 <= pc < w.len(),
        w[pc] == Op::Plain(Opcode::Dup),
    ensures
        run(m, w, pc, s.push(v), f) == run(m, w, pc + 1, s.push(v).push(v), f),
{
    reveal(run);
}

pub(crate) proof fn lemma_store(m: Host, w: Seq<Op>, pc: int, s: Seq<Val>, v: Val, f: Frame, slot: u16)
    requires
        0 <= pc < w.len(),
        w[pc] == Op::StoreLocal(slot),
    ensures
        run(m, w, pc, s.push(v), f) == run(
            m,
            w,
            pc + 1,
            s,
            Frame { locals: f.locals.insert(slot, v), ..f },
        ),
{
    reveal(run);
    assert(s.push(v).drop_last() =~= s);
}

proof fn lemma_branch(m: Host, w: Seq<Op>, pc: int, s: Seq<Val>, c: bool, f: Frame, k: int)
    requires
        0 <= pc < w.len(),
        w[pc] == Op::JumpIfNot(k) || w[pc] == Op::JumpIf(k),
        0 <= k,
        pc + 1 + k <= w.len(),
    ensures
        run(m, w, pc, s.push(Val::Bool(c)), f) == run(
            m,
            w,
            if c == (w[pc] is JumpIf) {
                pc + 1 + k
            } else {
                pc + 1
            },
            s,
            f,
        ),
{
    reveal(run);
    assert(s.push(Val::Bool(c)).drop_last() =~= s);
}

proof fn lemma_jump(m: Host, w: Seq<Op>, pc: int, s: Seq<Val>, f: Frame, k: int)
    requires
        0 <= pc < w.len(),
        w[pc] == Op::Jump(k),
        0 <= k,
        pc + 1 + k <= w.len(),
    ensures
        run(m, w, pc, s, f) == run(m, w, pc + 1 + k, s, f),
{
    reveal(run);
}

/// An instruction that only changes the stack and the frame.
pub(crate) proof fn lemma_step(m: Host, w: Seq<Op>, pc: int, s: Seq<Val>, f: Frame, op: Op)
    requires
        0 <= pc < w.len(),
        w[pc] == op,
        stack_effect(m, op, s, f) is Some,
        !(op is Jump) && !(op is JumpIf) && !(op is JumpIfNot) && !(op is TailCall)
            && !(op is TailCallClosure),
        op != Op::Plain(Opcode::Return),
    ensures
        run(m, w, pc, s, f) == run(
            m,
            w,
            pc + 1,
            stack_effect(m, op, s, f)->0,
            frame_effect(op, s, f),
        ),
{
    reveal(run);
}

/// An instruction that takes values and leaves one.
pub(crate) proof fn lemma_taking(
    m: Host,
    w: Seq<Op>,
    pc: int,
    s: Seq<Val>,
    vs: Seq<Val>,
    f: Frame,
    op: Op,
    v: Val,
)
    requires
        0 <= pc < w.len(),
        w[pc] == op,
        stack_effect(m, op, s + vs, f) == Some(s.push(v)),
        frame_effect(op, s + vs, f) == f,
        !(op is Jump) && !(op is JumpIf) && !(op is JumpIfNot) && !(op is TailCall)
            && !(op is TailCallClosure),
        op != Op::Plain(Opcode::Return),
    ensures
        run(m, w, pc, s + vs, f) == run(m, w, pc + 1, s.push(v), f),
{
    lemma_step(m, w, pc, s + vs, f, op);
}

/// A call leaves what the function gives, in tail position as what the caller gives.
proof fn lemma_call(
    m: Host,
    w: Seq<Op>,
    pc: int,
    s: Seq<Val>,
    vs: Seq<Val>,
    f: Frame,
    h: Seq<u8>,
    n: u8,
    tail: bool,
)
    requires
        0 <= pc < w.len(),
        w[pc] == call_op(h, n, tail),
        n == vs.len(),
    ensures
        ({
            let v = (m.call)(h, vs);
            run(m, w, pc, s + vs, f) == run(m, w, pc + 1, s.push(v), f) || (tail && run(
                m,
                w,
                pc,
                s + vs,
                f,
            ) == Outcome::Returned(v))
        }),
{
    reveal(run);
    lemma_split(s, vs);
}

/// A call of a closure leaves what the closure gives, in tail position as what the
/// caller gives.
pub(crate) proof fn lemma_closure_call(
    m: Host,
    w: Seq<Op>,
    pc: int,
    s: Seq<Val>,
    c: Val,
    vs: Seq<Val>,
    f: Frame,
    n: u8,
    tail: bool,
)
    requires
        0 <= pc < w.len(),
        w[pc] == closure_op(n, tail),
        n == vs.len(),
    ensures
        ({
            let v = (m.apply)(c, vs);
            run(m, w, pc, s.push(c) + vs, f) == run(m, w, pc + 1, s.push(v), f) || (tail && run(
                m,
                w,
                pc,
                s.push(c) + vs,
                f,
            ) == Outcome::Returned(v))
        }),
{
    reveal(run);
    lemma_split(s.push(c), vs);
    let all = s.push(c) + vs;
    assert(all.take(all.len() - (vs.len() + 1)) =~= s);
    assert(all[all.len() - vs.len() - 1] == c);
}

#[verifier::rlimit(50)]
proof fn lemma_unary_run(
    m: Host,
    t: TablesView,
    e: Expr,
    g: Gen,
    tail: bool,
    b: Made,
    env: Env,
    w: Seq<Op>,
    pc: int,
    s: Seq<Val>,
    f: Frame,
) -> (r: Frame)
    requires
        e.kind is Unary,
        can_run(t, e, g, b, env, f),
        value(m, t, e, env) is Some,
        kind_code(t, e, g, tail) is Ok,
        placed(w, pc, kind_code(t, e, g, tail)->Ok_0.0),
    ensures
        leaves(
            m,
            w,
            pc,
            s,
            f,
            kind_code(t, e, g, tail)->Ok_0.0.len() as int,
            value(m, t, e, env)->0,
            r,
            tail,
        ),
        keeps(f, r, g.scope.next_local),
    decreases e, 1int, 0int,
{
    let v = value(m, t, e, env)->0;
    let code = kind_code(t, e, g, tail)->Ok_0.0;
    let x = e.kind->Unary_1;
    let (c, h) = expr_code(t, *x, g, false)->Ok_0;
    let a = value(m, t, *x, env)->0;
    let f1 = {
        assert(code =~= c + seq![code.last()]);
        lemma_placed(w, pc, c, seq![code.last()]);
        expressions_leave_their_value(m, t, *x, g, false, b, env, w, pc, s, f)
    };
    assert(w[pc + c.len()] == code.last());
    assert(s.push(a) =~= s + seq![a]);
    lemma_split(s, seq![a]);
    lemma_taking(m, w, pc + c.len(), s, seq![a], f1, code.last(), v);
    f1
}

#[verifier::rlimit(50)]
proof fn lemma_index_run(
    m: Host,
    t: TablesView,
    e: Expr,
    g: Gen,
    tail: bool,
    b: Made,
    env: Env,
    w: Seq<Op>,
    pc: int,
    s: Seq<Val>,
    f: Frame,
) -> (r: Frame)
    requires
        e.kind is TupleIndex,
        can_run(t, e, g, b, env, f),
        value(m, t, e, env) is Some,
        kind_code(t, e, g, tail) is Ok,
        placed(w, pc, kind_code(t, e, g, tail)->Ok_0.0),
    ensures
        leaves(
            m,
            w,
            pc,
            s,
            f,
            kind_code(t, e, g, tail)->Ok_0.0.len() as int,
            value(m, t, e, env)->0,
            r,
            tail,
        ),
        keeps(f, r, g.scope.next_local),
    decreases e, 1int, 0int,
{
    let v = value(m, t, e, env)->0;
    let code = kind_code(t, e, g, tail)->Ok_0.0;
    let x = e.kind->TupleIndex_0;
    let (c, h) = expr_code(t, *x, g, false)->Ok_0;
    let a = value(m, t, *x, env)->0;
    let f1 = {
        assert(code =~= c + seq![code.last()]);
        lemma_placed(w, pc, c, seq![code.last()]);
        expressions_leave_their_value(m, t, *x, g, false, b, env, w, pc, s, f)
    };
    assert(w[pc + c.len()] == code.last());
    assert(s.push(a) =~= s + seq![a]);
    lemma_split(s, seq![a]);
    lemma_taking(m, w, pc + c.len(), s, seq![a], f1, code.last(), v);
    f1
}

#[verifier::rlimit(50)]
proof fn lemma_field_run(
    m: Host,
    t: TablesView,
    e: Expr,
    g: Gen,
    tail: bool,
    b: Made,
    env: Env,
    w: Seq<Op>,
    pc: int,
    s: Seq<Val>,
    f: Frame,
) -> (r: Frame)
    requires
        e.kind is RecordField,
        can_run(t, e, g, b, env, f),
        value(m, t, e, env) is Some,
        kind_code(t, e, g, tail) is Ok,
        placed(w, pc, kind_code(t, e, g, tail)->Ok_0.0),
    ensures
        leaves(
            m,
            w,
            pc,
            s,
            f,
            kind_code(t, e, g, tail)->Ok_0.0.len() as int,
            value(m, t, e, env)->0,
            r,
            tail,
        ),
        keeps(f, r, g.scope.next_local),
    decreases e, 1int, 0int,
{
    let v = value(m, t, e, env)->0;
    let code = kind_code(t, e, g, tail)->Ok_0.0;
    let x = e.kind->RecordField_0;
    let (c, h) = expr_code(t, *x, g, false)->Ok_0;
    let a = value(m, t, *x, env)->0;
    let f1 = {
        assert(code =~= c + seq![code.last()]);
        lemma_placed(w, pc, c, seq![code.last()]);
        expressions_leave_their_value(m, t, *x, g, false, b, env, w, pc, s, f)
    };
    assert(w[pc + c.len()] == code.last());
    assert(s.push(a) =~= s + seq![a]);
    lemma_split(s, seq![a]);
    lemma_taking(m, w, pc + c.len(), s, seq![a], f1, code.last(), v);
    f1
}

#[verifier::rlimit(50)]
proof fn lemma_tuple_run(
    m: Host,
    t: TablesView,
    e: Expr,
    g: Gen,
    tail: bool,
    b: Made,
    env: Env,
    w: Seq<Op>,
    pc: int,
    s: Seq<Val>,
    f: Frame,
) -> (r: Frame)
    requires
        e.kind is Tuple,
        can_run(t, e, g, b, env, f),
        value(m, t, e, env) is Some,
        kind_code(t, e, g, tail) is Ok,
        placed(w, pc, kind_code(t, e, g, tail)->Ok_0.0),
    ensures
        leaves(
            m,
            w,
            pc,
            s,
            f,
            kind_code(t, e, g, tail)->Ok_0.0.len() as int,
            value(m, t, e, env)->0,
            r,
            tail,
        ),
        keeps(f, r, g.scope.next_local),
    decreases e, 1int, 0int,
{
    let v = value(m, t, e, env)->0;
    let code = kind_code(t, e, g, tail)->Ok_0.0;
    let es = e.kind->Tuple_0@;
    let (c, h) = exprs_code(t, es, g)->Ok_0;
    assert(code =~= c + seq![code.last()]);
    lemma_placed(w, pc, c, seq![code.last()]);
    let f1 = lemma_exprs_run(m, t, es, g, b, env, w, pc, s, f);
    assert(w[pc + c.len()] == code.last());
    let vs = values(m, t, es, env)->0;
    lemma_split(s, vs);
    lemma_taking(m, w, pc + c.len(), s, vs, f1, code.last(), v);
    f1
}

#[verifier::rlimit(50)]
proof fn lemma_list_run(
    m: Host,
    t: TablesView,
    e: Expr,
    g: Gen,
    tail: bool,
    b: Made,
    env: Env,
    w: Seq<Op>,
    pc: int,
    s: Seq<Val>,
    f: Frame,
) -> (r: Frame)
    requires
        e.kind is List,
        can_run(t, e, g, b, env, f),
        value(m, t, e, env) is Some,
        kind_code(t, e, g, tail) is Ok,
        placed(w, pc, kind_code(t, e, g, tail)->Ok_0.0),
    ensures
        leaves(
            m,
            w,
            pc,
            s,
            f,
            kind_code(t, e, g, tail)->Ok_0.0.len() as int,
            value(m, t, e, env)->0,
            r,
            tail,
        ),
        keeps(f, r, g.scope.next_local),
    decreases e, 1int, 0int,
{
    let v = value(m, t, e, env)->0;
    let code = kind_code(t, e, g, tail)->Ok_0.0;
    let es = e.kind->List_0@;
    let (c, h) = exprs_code(t, es, g)->Ok_0;
    assert(code =~= c + seq![code.last()]);
    lemma_placed(w, pc, c, seq![code.last()]);
    let f1 = lemma_exprs_run(m, t, es, g, b, env, w, pc, s, f);
    assert(w[pc + c.len()] == code.last());
    let vs = values(m, t, es, env)->0;
    lemma_split(s, vs);
    lemma_taking(m, w, pc + c.len(), s, vs, f1, code.last(), v);
    f1
}

#[verifier::rlimit(50)]
proof fn lemma_record_run(
    m: Host,
    t: TablesView,
    e: Expr,
    g: Gen,
    tail: bool,
    b: Made,
    env: Env,
    w: Seq<Op>,
    pc: int,
    s: Seq<Val>,
    f: Frame,
) -> (r: Frame)
    requires
        e.kind is Record || e.kind is TypedRecord,
        can_run(t, e, g, b, env, f),
        value(m, t, e, env) is Some,
        kind_code(t, e, g, tail) is Ok,
        placed(w, pc, kind_code(t, e, g, tail)->Ok_0.0),
    ensures
        leaves(
            m,
            w,
            pc,
            s,
            f,
            kind_code(t, e, g, tail)->Ok_0.0.len() as int,
            value(m, t, e, env)->0,
            r,
            tail,
        ),
        keeps(f, r, g.scope.next_local),
    decreases e, 1int, 0int,
{
    let v = value(m, t, e, env)->0;
    let code = kind_code(t, e, g, tail)->Ok_0.0;
    let fields = match e.kind {
        ExprKind::Record(fields) => fields@,
        ExprKind::TypedRecord { name: _, fields } => fields@,
        _ => seq![],
    };
    let (c, h) = fields_code(t, fields, g)->Ok_0;
    assert(code =~= c + seq![code.last()]);
    lemma_placed(w, pc, c, seq![code.last()]);
    let (f1, vs) = lemma_fields_run(m, t, fields, g, b, env, w, pc, s, f);
    assert(w[pc + c.len()] == code.last());
    lemma_split(s, vs);
    lemma_taking(m, w, pc + c.len(), s, vs, f1, code.last(), v);
    f1
}

#[verifier::rlimit(50)]
proof fn lemma_local_run(
    m: Host,
    t: TablesView,
    e: Expr,
    g: Gen,
    tail: bool,
    b: Made,
    env: Env,
    w: Seq<Op>,
    pc: int,
    s: Seq<Val>,
    f: Frame,
) -> (r: Frame)
    requires
        e.kind is Local,
        can_run(t, e, g, b, env, f),
        value(m, t, e, env) is Some,
        kind_code(t, e, g, tail) is Ok,
        placed(w, pc, kind_code(t, e, g, tail)->Ok_0.0),
    ensures
        leaves(
            m,
            w,
            pc,
            s,
            f,
            kind_code(t, e, g, tail)->Ok_0.0.len() as int,
            value(m, t, e, env)->0,
            r,
            tail,
        ),
        keeps(f, r, g.scope.next_local),
    decreases e, 1int, 0int,
{
    let v = value(m, t, e, env)->0;
    let code = kind_code(t, e, g, tail)->Ok_0.0;
    let id = e.kind->Local_0;
    lemma_assoc_at(g.scope.captures, id);
    assert(env.contains_key(id));
    assert(w[pc] == code[0]);
    lemma_step(m, w, pc, s, f, code[0]);
    f
}

#[verifier::rlimit(50)]
proof fn lemma_name_run(
    m: Host,
    t: TablesView,
    e: Expr,
    g: Gen,
    tail: bool,
    b: Made,
    env: Env,
    w: Seq<Op>,
    pc: int,
    s: Seq<Val>,
    f: Frame,
) -> (r: Frame)
    requires
        e.kind is Name,
        can_run(t, e, g, b, env, f),
        value(m, t, e, env) is Some,
        kind_code(t, e, g, tail) is Ok,
        placed(w, pc, kind_code(t, e, g, tail)->Ok_0.0),
    ensures
        leaves(
            m,
            w,
            pc,
            s,
            f,
            kind_code(t, e, g, tail)->Ok_0.0.len() as int,
            value(m, t, e, env)->0,
            r,
            tail,
        ),
        keeps(f, r, g.scope.next_local),
    decreases e, 1int, 0int,
{
    let v = value(m, t, e, env)->0;
    let code = kind_code(t, e, g, tail)->Ok_0.0;
    let n = e.kind->Name_0;
    lemma_name_scope(t, e, g, b);
    lemma_assoc_at(g.scope.block_consts, n.name@);
    assert(w[pc] == code[0]);
    assert(s.take(s.len() - 0) =~= s);
    assert(last(s, 0) =~= seq![]);
    lemma_step(m, w, pc, s, f, code[0]);
    f
}

/// The code of the operands of an operator leaves their values.
proof fn lemma_operands_run(
    m: Host,
    t: TablesView,
    e: Expr,
    g: Gen,
    b: Made,
    env: Env,
    w: Seq<Op>,
    pc: int,
    s: Seq<Val>,
    f: Frame,
) -> (r: Frame)
    requires
        e.kind is Binary,
        can_run(t, e, g, b, env, f),
        value(m, t, *e.kind->Binary_left, env) is Some,
        value(m, t, *e.kind->Binary_right, env) is Some,
        operands_code(t, e, g) is Ok,
        placed(w, pc, operands_code(t, e, g)->Ok_0.0),
    ensures
        run(m, w, pc, s, f) == run(
            m,
            w,
            pc + operands_code(t, e, g)->Ok_0.0.len(),
            s.push(value(m, t, *e.kind->Binary_left, env)->0).push(
                value(m, t, *e.kind->Binary_right, env)->0,
            ),
            r,
        ),
        keeps(f, r, g.scope.next_local),
    decreases e, 0int, 0int,
{
    let left = e.kind->Binary_left;
    let right = e.kind->Binary_right;
    let (lc, h) = expr_code(t, *left, g, false)->Ok_0;
    let (rc, k) = expr_code(t, *right, h, false)->Ok_0;
    let a = value(m, t, *left, env)->0;
    lemma_placed(w, pc, lc, rc);
    let f1 = expressions_leave_their_value(m, t, *left, g, false, b, env, w, pc, s, f);
    lemma_expr_scope(t, *left, g, false, b);
    lemma_env_kept(g.scope, h.scope, b, env, f, f1);
    let c = plain(t, *left, b)->0;
    let f2 = expressions_leave_their_value(m, t, *right, h, false, c, env, w, pc + lc.len(), s.push(a), f1);
    lemma_keeps(f, f1, f2, g.scope.next_local, h.scope.next_local);
    f2
}

#[verifier::rlimit(50)]
proof fn lemma_short_run(
    m: Host,
    t: TablesView,
    e: Expr,
    g: Gen,
    tail: bool,
    b: Made,
    env: Env,
    w: Seq<Op>,
    pc: int,
    s: Seq<Val>,
    f: Frame,
) -> (r: Frame)
    requires
        e.kind is Binary && (e.kind->Binary_op == BinaryOp::And || e.kind->Binary_op == BinaryOp::Or),
        can_run(t, e, g, b, env, f),
        value(m, t, e, env) is Some,
        kind_code(t, e, g, tail) is Ok,
        placed(w, pc, kind_code(t, e, g, tail)->Ok_0.0),
    ensures
        leaves(
            m,
            w,
            pc,
            s,
            f,
            kind_code(t, e, g, tail)->Ok_0.0.len() as int,
            value(m, t, e, env)->0,
            r,
            tail,
        ),
        keeps(f, r, g.scope.next_local),
    decreases e, 0int, 0int,
{
    let v = value(m, t, e, env)->0;
    let code = kind_code(t, e, g, tail)->Ok_0.0;
    let op = e.kind->Binary_op;
    let left = e.kind->Binary_left;
    let right = e.kind->Binary_right;
    assert(binary_code(t, e, g, tail) is Ok);
    assert(short_circuit_code(t, e, g, tail) is Ok);
    let (lc, h) = expr_code(t, *left, g, false)->Ok_0;
    let (rc, k) = expr_code(t, *right, h, tail)->Ok_0;
    let mid = seq![
        Op::Plain(Opcode::Dup),
        if op == BinaryOp::And {
            Op::JumpIfNot(rc.len() + 1int)
        } else {
            Op::JumpIf(rc.len() + 1int)
        },
        Op::Plain(Opcode::Pop),
    ];
    assert(code =~= lc + mid + rc);
    lemma_placed(w, pc, lc + mid, rc);
    lemma_placed(w, pc, lc, mid);
    let q = pc + lc.len();
    assert(w[q] == mid[0] && w[q + 1] == mid[1] && w[q + 2] == mid[2]);
    let a = value(m, t, *left, env)->0;
    let x = a->Bool_0;
    let f1 = expressions_leave_their_value(m, t, *left, g, false, b, env, w, pc, s, f);
    lemma_dup(m, w, q, s, a, f1);
    lemma_branch(m, w, q + 1, s.push(a), x, f1, rc.len() + 1int);
    if x == (op == BinaryOp::And) {
        lemma_pop(m, w, q + 2, s, a, f1);
        lemma_expr_scope(t, *left, g, false, b);
        lemma_env_kept(g.scope, h.scope, b, env, f, f1);
        let c = plain(t, *left, b)->0;
        let f2 = expressions_leave_their_value(m, t, *right, h, tail, c, env, w, q + 3, s, f1);
        lemma_keeps(f, f1, f2, g.scope.next_local, h.scope.next_local);
        f2
    } else {
        f1
    }
}

#[verifier::rlimit(50)]
proof fn lemma_binary_run(
    m: Host,
    t: TablesView,
    e: Expr,
    g: Gen,
    tail: bool,
    b: Made,
    env: Env,
    w: Seq<Op>,
    pc: int,
    s: Seq<Val>,
    f: Frame,
) -> (r: Frame)
    requires
        e.kind is Binary,
        can_run(t, e, g, b, env, f),
        value(m, t, e, env) is Some,
        kind_code(t, e, g, tail) is Ok,
        placed(w, pc, kind_code(t, e, g, tail)->Ok_0.0),
    ensures
        leaves(
            m,
            w,
            pc,
            s,
            f,
            kind_code(t, e, g, tail)->Ok_0.0.len() as int,
            value(m, t, e, env)->0,
            r,
            tail,
        ),
        keeps(f, r, g.scope.next_local),
    decreases e, 1int, 0int,
{
    let v = value(m, t, e, env)->0;
    let code = kind_code(t, e, g, tail)->Ok_0.0;
    let op = e.kind->Binary_op;
    let left = e.kind->Binary_left;
    let right = e.kind->Binary_right;
    let resolved = e.kind->Binary_resolved_op;
    if op == BinaryOp::And || op == BinaryOp::Or {
        lemma_short_run(m, t, e, g, tail, b, env, w, pc, s, f)
    } else {
        let a = value(m, t, *left, env)->0;
        let z = value(m, t, *right, env)->0;
        assert(binary_code(t, e, g, tail) is Ok);
        assert(operands_code(t, e, g) is Ok);
        let oc = operands_code(t, e, g)->Ok_0.0;
        let q = pc + oc.len();
        match resolved {
            None => {
                let o = Op::Plain(operator(op));
                assert(code =~= oc + seq![o]);
                lemma_placed(w, pc, oc, seq![o]);
                assert(w[q] == o);
                let f1 = lemma_operands_run(m, t, e, g, b, env, w, pc, s, f);
                operators_compute_their_value(m, op, s, a, z, f1);
                assert(s.push(a).push(z) =~= s + seq![a, z]);
                lemma_taking(m, w, q, s, seq![a, z], f1, o, v);
                f1
            },
            Some(ResolvedMethod::Symbol(symbol)) => {
                let h = function_hash(t, KeyView::Bare(symbol@))->0;
                let rest = seq![Op::Call(h, 2)] + adapted(op);
                assert(code =~= oc + rest);
                lemma_placed(w, pc, oc, rest);
                lemma_placed(w, q, seq![Op::Call(h, 2)], adapted(op));
                assert(w[q] == Op::Call(h, 2));
                let f1 = lemma_operands_run(m, t, e, g, b, env, w, pc, s, f);
                let r = (m.call)(h, seq![a, z]);
                assert(s.push(a).push(z) =~= s + seq![a, z]);
                lemma_call(m, w, q, s, seq![a, z], f1, h, 2, false);
                lemma_adapted(m, op, r, w, q + 1, s, f1);
                f1
            },
            _ => f,
        }
    }
}

/// What follows the call of an operator's method gives the operator's value.
proof fn lemma_adapted(m: Host, op: BinaryOp, r: Val, w: Seq<Op>, pc: int, s: Seq<Val>, f: Frame)
    requires
        !(op is And) && !(op is Or),
        trait_operator_value(m, op, r) is Some,
        placed(w, pc, adapted(op)),
    ensures
        run(m, w, pc, s.push(r), f) == run(
            m,
            w,
            pc + adapted(op).len(),
            s.push(trait_operator_value(m, op, r)->0),
            f,
        ),
{
    let v = trait_operator_value(m, op, r)->0;
    let c = adapted(op);
    if op is Ne {
        assert(w[pc] == c[0]);
        assert(s.push(r) =~= s + seq![r]);
        lemma_split(s, seq![r]);
        lemma_taking(m, w, pc, s, seq![r], f, c[0], v);
    } else if op is Lt || op is Le || op is Gt || op is Ge {
        assert(w[pc] == c[0] && w[pc + 1] == c[1]);
        let zero = Val::Number(0);
        lemma_push(m, w, pc, s.push(r), f, ConstantView::Number(0));
        operators_compute_their_value(m, op, s, r, zero, f);
        assert(s.push(r).push(zero) =~= s + seq![r, zero]);
        lemma_taking(m, w, pc + 1, s, seq![r, zero], f, c[1], v);
    }
}

#[verifier::rlimit(50)]
proof fn lemma_if_run(
    m: Host,
    t: TablesView,
    e: Expr,
    g: Gen,
    tail: bool,
    b: Made,
    env: Env,
    w: Seq<Op>,
    pc: int,
    s: Seq<Val>,
    f: Frame,
) -> (r: Frame)
    requires
        e.kind is If,
        can_run(t, e, g, b, env, f),
        value(m, t, e, env) is Some,
        kind_code(t, e, g, tail) is Ok,
        placed(w, pc, kind_code(t, e, g, tail)->Ok_0.0),
    ensures
        leaves(
            m,
            w,
            pc,
            s,
            f,
            kind_code(t, e, g, tail)->Ok_0.0.len() as int,
            value(m, t, e, env)->0,
            r,
            tail,
        ),
        keeps(f, r, g.scope.next_local),
    decreases e, 1int, 0int,
{
    let v = value(m, t, e, env)->0;
    let code = kind_code(t, e, g, tail)->Ok_0.0;
    let cond = e.kind->If_0;
    let yes = e.kind->If_1;
    let no = e.kind->If_2;
    assert(if_code(t, e, g, tail) is Ok);
    let (cc, h) = expr_code(t, *cond, g, false)->Ok_0;
    let (yc, k) = expr_code(t, *yes, h, tail)->Ok_0;
    let nc = match no {
        Some(n) => expr_code(t, *n, k, tail)->Ok_0.0,
        None => seq![Op::Push(ConstantView::Unit)],
    };
    let skip = seq![Op::JumpIfNot(yc.len() + 1int)];
    let end = seq![Op::Jump(nc.len() as int)];
    assert(code =~= cc + skip + yc + end + nc);
    lemma_placed(w, pc, cc + skip + yc + end, nc);
    lemma_placed(w, pc, cc + skip + yc, end);
    lemma_placed(w, pc, cc + skip, yc);
    lemma_placed(w, pc, cc, skip);
    let q = pc + cc.len();
    assert(w[q] == skip[0]);
    assert(w[q + 1 + yc.len()] == end[0]);
    let x = value(m, t, *cond, env)->0->Bool_0;
    let f1 = expressions_leave_their_value(m, t, *cond, g, false, b, env, w, pc, s, f);
    lemma_expr_scope(t, *cond, g, false, b);
    lemma_env_kept(g.scope, h.scope, b, env, f, f1);
    let b1 = plain(t, *cond, b)->0;
    lemma_branch(m, w, q, s, x, f1, yc.len() + 1int);
    if x {
        let f2 = expressions_leave_their_value(m, t, *yes, h, tail, b1, env, w, q + 1, s, f1);
        lemma_jump(m, w, q + 1 + yc.len(), s.push(v), f2, nc.len() as int);
        lemma_keeps(f, f1, f2, g.scope.next_local, h.scope.next_local);
        f2
    } else {
        let at = q + 1 + yc.len() + 1;
        lemma_expr_scope(t, *yes, h, tail, b1);
        match no {
            Some(n) => {
                lemma_env_kept(h.scope, k.scope, b1, env, f1, f1);
                let b2 = plain(t, *yes, b1)->0;
                let f2 = expressions_leave_their_value(m, t, *n, k, tail, b2, env, w, at, s, f1);
                lemma_keeps(f, f1, f2, g.scope.next_local, k.scope.next_local);
                f2
            },
            None => {
                assert(w[at] == nc[0]);
                lemma_push(m, w, at, s, f1, ConstantView::Unit);
                f1
            },
        }
    }
}

#[verifier::rlimit(50)]
proof fn lemma_block_run(
    m: Host,
    t: TablesView,
    e: Expr,
    g: Gen,
    tail: bool,
    b: Made,
    env: Env,
    w: Seq<Op>,
    pc: int,
    s: Seq<Val>,
    f: Frame,
) -> (r: Frame)
    requires
        e.kind is Block,
        can_run(t, e, g, b, env, f),
        value(m, t, e, env) is Some,
        kind_code(t, e, g, tail) is Ok,
        placed(w, pc, kind_code(t, e, g, tail)->Ok_0.0),
    ensures
        leaves(
            m,
            w,
            pc,
            s,
            f,
            kind_code(t, e, g, tail)->Ok_0.0.len() as int,
            value(m, t, e, env)->0,
            r,
            tail,
        ),
        keeps(f, r, g.scope.next_local),
    decreases e, 1int, 0int,
{
    let v = value(m, t, e, env)->0;
    let code = kind_code(t, e, g, tail)->Ok_0.0;
    let stmts = e.kind->Block_0@;
    let result = e.kind->Block_1;
    assert(block_code(t, e, g, tail) is Ok);
    let (sc, h) = stmts_code(t, stmts, g)->Ok_0;
    let rc = match result {
        Some(r) => expr_code(t, *r, h, tail)->Ok_0.0,
        None => seq![Op::Push(ConstantView::Unit)],
    };
    assert(code =~= sc + rc);
    lemma_placed(w, pc, sc, rc);
    let f1 = lemma_stmts_run(m, t, stmts, g, b, env, w, pc, s, f);
    lemma_stmts_scope(t, stmts, g, b);
    let c = plain_stmts(t, stmts, b)->0;
    let inner = stmts_env(m, t, stmts, env)->0;
    match result {
        Some(r) => {
            let f2 = expressions_leave_their_value(m, t, *r, h, tail, c, inner, w, pc + sc.len(), s, f1);
            lemma_keeps(f, f1, f2, g.scope.next_local, h.scope.next_local);
            f2
        },
        None => {
            assert(w[pc + sc.len()] == rc[0]);
            lemma_push(m, w, pc + sc.len(), s, f1, ConstantView::Unit);
            f1
        },
    }
}

#[verifier::rlimit(50)]
proof fn lemma_match_run(
    m: Host,
    t: TablesView,
    e: Expr,
    g: Gen,
    tail: bool,
    b: Made,
    env: Env,
    w: Seq<Op>,
    pc: int,
    s: Seq<Val>,
    f: Frame,
) -> (r: Frame)
    requires
        e.kind is Match,
        can_run(t, e, g, b, env, f),
        value(m, t, e, env) is Some,
        kind_code(t, e, g, tail) is Ok,
        placed(w, pc, kind_code(t, e, g, tail)->Ok_0.0),
    ensures
        leaves(
            m,
            w,
            pc,
            s,
            f,
            kind_code(t, e, g, tail)->Ok_0.0.len() as int,
            value(m, t, e, env)->0,
            r,
            tail,
        ),
        keeps(f, r, g.scope.next_local),
    decreases e, 1int, 0int,
{
    let v = value(m, t, e, env)->0;
    let code = kind_code(t, e, g, tail)->Ok_0.0;
    let x = e.kind->Match_0;
    let arms = e.kind->Match_1@;
    assert(match_code(t, e, g, tail) is Ok);
    let (vc, h) = expr_code(t, *x, g, false)->Ok_0;
    let ac = arms_code(t, arms, 0, h, tail)->Ok_0.0;
    assert(code =~= vc + ac);
    lemma_placed(w, pc, vc, ac);
    let a = value(m, t, *x, env)->0;
    let f1 = expressions_leave_their_value(m, t, *x, g, false, b, env, w, pc, s, f);
    lemma_expr_scope(t, *x, g, false, b);
    lemma_env_kept(g.scope, h.scope, b, env, f, f1);
    let c = plain(t, *x, b)->0;
    let f2 = lemma_arms_run(m, t, arms, 0, h, tail, c, env, a, w, pc + vc.len(), s, f1);
    lemma_keeps(f, f1, f2, g.scope.next_local, h.scope.next_local);
    f2
}

#[verifier::rlimit(50)]
proof fn lemma_call_run(
    m: Host,
    t: TablesView,
    e: Expr,
    g: Gen,
    tail: bool,
    b: Made,
    env: Env,
    w: Seq<Op>,
    pc: int,
    s: Seq<Val>,
    f: Frame,
) -> (r: Frame)
    requires
        e.kind is Call,
        can_run(t, e, g, b, env, f),
        value(m, t, e, env) is Some,
        kind_code(t, e, g, tail) is Ok,
        placed(w, pc, kind_code(t, e, g, tail)->Ok_0.0),
    ensures
        leaves(
            m,
            w,
            pc,
            s,
            f,
            kind_code(t, e, g, tail)->Ok_0.0.len() as int,
            value(m, t, e, env)->0,
            r,
            tail,
        ),
        keeps(f, r, g.scope.next_local),
    decreases e, 1int, 0int,
{
    let v = value(m, t, e, env)->0;
    let code = kind_code(t, e, g, tail)->Ok_0.0;
    let callee = e.kind->Call_0;
    let args = e.kind->Call_1@;
    assert(call_code(t, e, g, tail) is Ok);
    let vs = values(m, t, args, env)->0;
    if callee.kind is Name && function_hash(t, name_key(callee.kind->Name_0)) is Some {
        let h = function_hash(t, name_key(callee.kind->Name_0))->0;
        assert(plain(t, *callee, b) == Some(b));
        let ac = exprs_code(t, args, g)->Ok_0.0;
        let op = call_op(h, args.len() as u8, tail);
        assert(code =~= ac + seq![op]);
        lemma_placed(w, pc, ac, seq![op]);
        assert(w[pc + ac.len()] == op);
        let f1 = lemma_exprs_run(m, t, args, g, b, env, w, pc, s, f);
        lemma_call(m, w, pc + ac.len(), s, vs, f1, h, args.len() as u8, tail);
        f1
    } else if callee.kind is Name && variant_of(t, callee.kind->Name_0) is Some {
        assert(plain(t, *callee, b) == Some(b));
        lemma_name_scope(t, *callee, g, b);
        assert(args.drop_last() =~= seq![]);
        assert(values(m, t, seq![], env) == Some(Seq::<Val>::empty()));
        assert(plain_all(t, seq![], b) == Some(b));
        assert(vs =~= seq![value(m, t, args[0], env)->0]);
        let a = vs[0];
        let ac = expr_code(t, args[0], g, false)->Ok_0.0;
        assert(code =~= ac + seq![code.last()]);
        lemma_placed(w, pc, ac, seq![code.last()]);
        assert(w[pc + ac.len()] == code.last());
        let f1 = expressions_leave_their_value(m, t, args[0], g, false, b, env, w, pc, s, f);
        assert(s.push(a) =~= s + vs);
        lemma_split(s, vs);
        lemma_taking(m, w, pc + ac.len(), s, vs, f1, code.last(), v);
        f1
    } else {
        lemma_closure_run(m, t, e, g, tail, b, env, w, pc, s, f)
    }
}

#[verifier::rlimit(50)]
proof fn lemma_closure_run(
    m: Host,
    t: TablesView,
    e: Expr,
    g: Gen,
    tail: bool,
    b: Made,
    env: Env,
    w: Seq<Op>,
    pc: int,
    s: Seq<Val>,
    f: Frame,
) -> (r: Frame)
    requires
        e.kind is Call,
        !(e.kind->Call_0.kind is Name) || (function_hash(t, name_key(e.kind->Call_0.kind->Name_0)) is None
            && variant_of(t, e.kind->Call_0.kind->Name_0) is None),
        can_run(t, e, g, b, env, f),
        value(m, t, e, env) is Some,
        kind_code(t, e, g, tail) is Ok,
        placed(w, pc, kind_code(t, e, g, tail)->Ok_0.0),
    ensures
        leaves(
            m,
            w,
            pc,
            s,
            f,
            kind_code(t, e, g, tail)->Ok_0.0.len() as int,
            value(m, t, e, env)->0,
            r,
            tail,
        ),
        keeps(f, r, g.scope.next_local),
    decreases e, 0int, 0int,
{
    let v = value(m, t, e, env)->0;
    let code = kind_code(t, e, g, tail)->Ok_0.0;
    let callee = e.kind->Call_0;
    let args = e.kind->Call_1@;
    assert(call_code(t, e, g, tail) is Ok);
    if callee.kind is Name {
        lemma_name_scope(t, *callee, g, b);
    }
    assert(closure_call_code(t, e, g, tail) is Ok);
    let vs = values(m, t, args, env)->0;
    let (cc, h) = expr_code(t, *callee, g, false)->Ok_0;
    let ac = exprs_code(t, args, h)->Ok_0.0;
    let op = closure_op(args.len() as u8, tail);
    assert(code =~= cc + (ac + seq![op]));
    lemma_placed(w, pc, cc, ac + seq![op]);
    lemma_placed(w, pc + cc.len(), ac, seq![op]);
    let q = pc + cc.len() + ac.len();
    assert(w[q] == op);
    let c = value(m, t, *callee, env)->0;
    let f1 = expressions_leave_their_value(m, t, *callee, g, false, b, env, w, pc, s, f);
    lemma_expr_scope(t, *callee, g, false, b);
    lemma_env_kept(g.scope, h.scope, b, env, f, f1);
    let d = plain(t, *callee, b)->0;
    let f2 = lemma_exprs_run(m, t, args, h, d, env, w, pc + cc.len(), s.push(c), f1);
    lemma_closure_call(m, w, q, s, c, vs, f2, args.len() as u8, tail);
    lemma_keeps(f, f1, f2, g.scope.next_local, h.scope.next_local);
    f2
}

#[verifier::rlimit(50)]
proof fn lemma_method_run(
    m: Host,
    t: TablesView,
    e: Expr,
    g: Gen,
    tail: bool,
    b: Made,
    env: Env,
    w: Seq<Op>,
    pc: int,
    s: Seq<Val>,
    f: Frame,
) -> (r: Frame)
    requires
        e.kind is MethodCall,
        can_run(t, e, g, b, env, f),
        value(m, t, e, env) is Some,
        kind_code(t, e, g, tail) is Ok,
        placed(w, pc, kind_code(t, e, g, tail)->Ok_0.0),
    ensures
        leaves(
            m,
            w,
            pc,
            s,
            f,
            kind_code(t, e, g, tail)->Ok_0.0.len() as int,
            value(m, t, e, env)->0,
            r,
            tail,
        ),
        keeps(f, r, g.scope.next_local),
    decreases e, 1int, 0int,
{
    let v = value(m, t, e, env)->0;
    let code = kind_code(t, e, g, tail)->Ok_0.0;
    let receiver = e.kind->MethodCall_receiver;
    let args = e.kind->MethodCall_args@;
    let symbol = e.kind->MethodCall_resolved_method->0->Symbol_0;
    assert(method_call_code(t, e, g, tail) is Ok);
    let target = function_hash(t, KeyView::Bare(symbol@))->0;
    let vs = values(m, t, args, env)->0;
    let a = value(m, t, *receiver, env)->0;
    let (rc, h) = expr_code(t, *receiver, g, false)->Ok_0;
    let ac = exprs_code(t, args, h)->Ok_0.0;
    let n = (1 + args.len()) as u8;
    let op = call_op(target, n, tail);
    assert(code =~= rc + ac + seq![op]);
    lemma_placed(w, pc, rc + ac, seq![op]);
    lemma_placed(w, pc, rc, ac);
    let q = pc + rc.len() + ac.len();
    assert(w[q] == op);
    let f1 = expressions_leave_their_value(m, t, *receiver, g, false, b, env, w, pc, s, f);
    lemma_expr_scope(t, *receiver, g, false, b);
    lemma_env_kept(g.scope, h.scope, b, env, f, f1);
    let d = plain(t, *receiver, b)->0;
    let f2 = lemma_exprs_run(m, t, args, h, d, env, w, pc + rc.len(), s.push(a), f1);
    assert(s.push(a) + vs =~= s + (seq![a] + vs));
    lemma_call(m, w, q, s, seq![a] + vs, f2, target, n, tail);
    lemma_keeps(f, f1, f2, g.scope.next_local, h.scope.next_local);
    f2
}

#[verifier::rlimit(50)]
proof fn lemma_perform_run(
    m: Host,
    t: TablesView,
    e: Expr,
    g: Gen,
    tail: bool,
    b: Made,
    env: Env,
    w: Seq<Op>,
    pc: int,
    s: Seq<Val>,
    f: Frame,
) -> (r: Frame)
    requires
        e.kind is Perform,
        can_run(t, e, g, b, env, f),
        value(m, t, e, env) is Some,
        kind_code(t, e, g, tail) is Ok,
        placed(w, pc, kind_code(t, e, g, tail)->Ok_0.0),
    ensures
        leaves(
            m,
            w,
            pc,
            s,
            f,
            kind_code(t, e, g, tail)->Ok_0.0.len() as int,
            value(m, t, e, env)->0,
            r,
            tail,
        ),
        keeps(f, r, g.scope.next_local),
    decreases e, 1int, 0int,
{
    let v = value(m, t, e, env)->0;
    let code = kind_code(t, e, g, tail)->Ok_0.0;
    let x = e.kind->Perform_0;
    let args = x.args@;
    assert(perform_code(t, e, g) is Ok);
    let vs = values(m, t, args, env)->0;
    let ac = exprs_code(t, args, g)->Ok_0.0;
    let k = code.len() - 2;
    let rest = seq![code[k], code[k + 1]];
    assert(code =~= ac + rest);
    lemma_placed(w, pc, ac, rest);
    let q = pc + ac.len();
    assert(w[q] == rest[0] && w[q + 1] == rest[1]);
    let f1 = lemma_exprs_run(m, t, args, g, b, env, w, pc, s, f);
    let method = rest[0]->Suspend_0;
    let packed = Val::Suspended(method, vs);
    lemma_split(s, vs);
    lemma_taking(m, w, q, s, vs, f1, rest[0], packed);
    assert(s.push(packed) =~= s + seq![packed]);
    lemma_split(s, seq![packed]);
    lemma_taking(m, w, q + 1, s, seq![packed], f1, rest[1], v);
    f1
}

/// Running the code of a plain expression, wherever it stands, leaves the value that
/// the language gives the expression; in tail position the function may give it.
pub proof fn expressions_leave_their_value(
    m: Host,
    t: TablesView,
    e: Expr,
    g: Gen,
    tail: bool,
    b: Made,
    env: Env,
    w: Seq<Op>,
    pc: int,
    s: Seq<Val>,
    f: Frame,
) -> (r: Frame)
    requires
        can_run(t, e, g, b, env, f),
        value(m, t, e, env) is Some,
        expr_code(t, e, g, tail) is Ok,
        placed(w, pc, expr_code(t, e, g, tail)->Ok_0.0),
    ensures
        leaves(
            m,
            w,
            pc,
            s,
            f,
            expr_code(t, e, g, tail)->Ok_0.0.len() as int,
            value(m, t, e, env)->0,
            r,
            tail,
        ),
        keeps(f, r, g.scope.next_local),
    decreases e, 3int, 0int,
{
    let mark = seq![Op::Mark(e.span)];
    assert(kind_code(t, e, g, tail) is Ok);
    let code = kind_code(t, e, g, tail)->Ok_0.0;
    assert(expr_code(t, e, g, tail)->Ok_0.0 == mark + code);
    lemma_placed(w, pc, mark, code);
    assert(w[pc] == mark[0]);
    lemma_step(m, w, pc, s, f, mark[0]);
    let q = pc + 1;
    match e.kind {
        ExprKind::Unit => {
            assert(w[q] == code[0]);
            lemma_push(m, w, q, s, f, ConstantView::Unit);
            f
        },
        ExprKind::Bool(x) => {
            assert(w[q] == code[0]);
            lemma_push(m, w, q, s, f, ConstantView::Bool(x));
            f
        },
        ExprKind::Number(x) => {
            assert(w[q] == code[0]);
            lemma_push(m, w, q, s, f, ConstantView::Number(x));
            f
        },
        ExprKind::String(x) => {
            assert(w[q] == code[0]);
            lemma_push(m, w, q, s, f, ConstantView::String(x@));
            f
        },
        ExprKind::Local(_) => lemma_local_run(m, t, e, g, tail, b, env, w, q, s, f),
        ExprKind::Name(_) => lemma_name_run(m, t, e, g, tail, b, env, w, q, s, f),
        ExprKind::Tuple(_) => lemma_tuple_run(m, t, e, g, tail, b, env, w, q, s, f),
        ExprKind::List(_) => lemma_list_run(m, t, e, g, tail, b, env, w, q, s, f),
        ExprKind::TupleIndex(_, _) => lemma_index_run(m, t, e, g, tail, b, env, w, q, s, f),
        ExprKind::Record(_) => lemma_record_run(m, t, e, g, tail, b, env, w, q, s, f),
        ExprKind::TypedRecord { name: _, fields: _ } => lemma_record_run(
            m,
            t,
            e,
            g,
            tail,
            b,
            env,
            w,
            q,
            s,
            f,
        ),
        ExprKind::RecordField(_, _) => lemma_field_run(m, t, e, g, tail, b, env, w, q, s, f),
        ExprKind::Binary { op: _, left: _, right: _, resolved_op: _ } => lemma_binary_run(
            m,
            t,
            e,
            g,
            tail,
            b,
            env,
            w,
            q,
            s,
            f,
        ),
        ExprKind::Unary(_, _) => lemma_unary_run(m, t, e, g, tail, b, env, w, q, s, f),
        ExprKind::If(_, _, _) => lemma_if_run(m, t, e, g, tail, b, env, w, q, s, f),
        ExprKind::Match(_, _) => lemma_match_run(m, t, e, g, tail, b, env, w, q, s, f),
        ExprKind::Block(_, _) => lemma_block_run(m, t, e, g, tail, b, env, w, q, s, f),
        ExprKind::Call(_, _) => lemma_call_run(m, t, e, g, tail, b, env, w, q, s, f),
        ExprKind::MethodCall { receiver: _, method: _, args: _, resolved_method: _ } =>
            lemma_method_run(m, t, e, g, tail, b, env, w, q, s, f),
        ExprKind::Perform(_) => lemma_perform_run(m, t, e, g, tail, b, env, w, q, s, f),
        ExprKind::Sandbox(x) => expressions_leave_their_value(m, t, *x.body, g, tail, b, env, w, q, s, f),
        _ => f,
    }
}

proof fn lemma_exprs_run(
    m: Host,
    t: TablesView,
    es: Seq<Expr>,
    g: Gen,
    b: Made,
    env: Env,
    w: Seq<Op>,
    pc: int,
    s: Seq<Val>,
    f: Frame,
) -> (r: Frame)
    requires
        plain_all(t, es, b) is Some,
        in_scope(g.scope, b),
        holds_env(g.scope, env, f),
        values(m, t, es, env) is Some,
        exprs_code(t, es, g) is Ok,
        placed(w, pc, exprs_code(t, es, g)->Ok_0.0),
    ensures
        run(m, w, pc, s, f) == run(
            m,
            w,
            pc + exprs_code(t, es, g)->Ok_0.0.len(),
            s + values(m, t, es, env)->0,
            r,
        ),
        values(m, t, es, env)->0.len() == es.len(),
        keeps(f, r, g.scope.next_local),
    decreases es, 0int, es.len(),
{
    if es.len() == 0 {
        assert(s + seq![] =~= s);
        f
    } else {
        let rest = es.drop_last();
        let (c, h) = exprs_code(t, rest, g)->Ok_0;
        let d = expr_code(t, es.last(), h, false)->Ok_0.0;
        lemma_placed(w, pc, c, d);
        let f1 = lemma_exprs_run(m, t, rest, g, b, env, w, pc, s, f);
        lemma_exprs_scope(t, rest, g, b);
        lemma_env_kept(g.scope, h.scope, b, env, f, f1);
        let vs = values(m, t, rest, env)->0;
        let v = value(m, t, es.last(), env)->0;
        let f2 = expressions_leave_their_value(
            m,
            t,
            es.last(),
            h,
            false,
            plain_all(t, rest, b)->0,
            env,
            w,
            pc + c.len(),
            s + vs,
            f1,
        );
        assert((s + vs).push(v) =~= s + vs.push(v));
        lemma_keeps(f, f1, f2, g.scope.next_local, h.scope.next_local);
        f2
    }
}

proof fn lemma_fields_run(
    m: Host,
    t: TablesView,
    fields: Seq<(String, Expr)>,
    g: Gen,
    b: Made,
    env: Env,
    w: Seq<Op>,
    pc: int,
    s: Seq<Val>,
    f: Frame,
) -> (r: (Frame, Seq<Val>))
    requires
        plain_fields(t, fields, b) is Some,
        in_scope(g.scope, b),
        holds_env(g.scope, env, f),
        field_map(m, t, fields, env) is Some,
        fields_code(t, fields, g) is Ok,
        placed(w, pc, fields_code(t, fields, g)->Ok_0.0),
    ensures
        run(m, w, pc, s, f) == run(
            m,
            w,
            pc + fields_code(t, fields, g)->Ok_0.0.len(),
            s + r.1,
            r.0,
        ),
        r.1.len() == 2 * fields.len(),
        record_of(r.1) == field_map(m, t, fields, env),
        keeps(f, r.0, g.scope.next_local),
    decreases fields, 0int, fields.len(),
{
    if fields.len() == 0 {
        assert(s + seq![] =~= s);
        (f, seq![])
    } else {
        let rest = fields.drop_last();
        let name = fields.last().0@;
        let x = fields.last().1;
        let (c, h) = fields_code(t, rest, g)->Ok_0;
        let d = expr_code(t, x, h, false)->Ok_0.0;
        let k = ConstantView::String(name);
        lemma_placed(w, pc, c.push(Op::Push(k)), d);
        assert(c.push(Op::Push(k)) =~= c + seq![Op::Push(k)]);
        lemma_placed(w, pc, c, seq![Op::Push(k)]);
        assert(w[pc + c.len()] == Op::Push(k));
        let (f1, vs) = lemma_fields_run(m, t, rest, g, b, env, w, pc, s, f);
        lemma_push(m, w, pc + c.len(), s + vs, f1, k);
        lemma_fields_scope(t, rest, g, b);
        lemma_env_kept(g.scope, h.scope, b, env, f, f1);
        let v = value(m, t, x, env)->0;
        let f2 = expressions_leave_their_value(
            m,
            t,
            x,
            h,
            false,
            plain_fields(t, rest, b)->0,
            env,
            w,
            pc + c.len() + 1,
            (s + vs).push(Val::Text(name)),
            f1,
        );
        let all = vs.push(Val::Text(name)).push(v);
        assert((s + vs).push(Val::Text(name)).push(v) =~= s + all);
        assert(all.take(all.len() - 2) =~= vs);
        lemma_keeps(f, f1, f2, g.scope.next_local, h.scope.next_local);
        (f2, all)
    }
}

proof fn lemma_stmts_run(
    m: Host,
    t: TablesView,
    ss: Seq<Stmt>,
    g: Gen,
    b: Made,
    env: Env,
    w: Seq<Op>,
    pc: int,
    s: Seq<Val>,
    f: Frame,
) -> (r: Frame)
    requires
        plain_stmts(t, ss, b) is Some,
        in_scope(g.scope, b),
        holds_env(g.scope, env, f),
        stmts_env(m, t, ss, env) is Some,
        stmts_code(t, ss, g) is Ok,
        placed(w, pc, stmts_code(t, ss, g)->Ok_0.0),
    ensures
        run(m, w, pc, s, f) == run(m, w, pc + stmts_code(t, ss, g)->Ok_0.0.len(), s, r),
        holds_env(stmts_code(t, ss, g)->Ok_0.1.scope, stmts_env(m, t, ss, env)->0, r),
        keeps(f, r, g.scope.next_local),
    decreases ss, 0int, ss.len(),
{
    if ss.len() == 0 {
        f
    } else {
        let rest = ss.drop_last();
        let (c, h) = stmts_code(t, rest, g)->Ok_0;
        let d = stmt_code(t, ss.last(), h)->Ok_0.0;
        lemma_placed(w, pc, c, d);
        let f1 = lemma_stmts_run(m, t, rest, g, b, env, w, pc, s, f);
        lemma_stmts_scope(t, rest, g, b);
        let f2 = lemma_stmt_run(
            m,
            t,
            ss.last(),
            h,
            plain_stmts(t, rest, b)->0,
            stmts_env(m, t, rest, env)->0,
            w,
            pc + c.len(),
            s,
            f1,
        );
        lemma_keeps(f, f1, f2, g.scope.next_local, h.scope.next_local);
        f2
    }
}

proof fn lemma_stmt_run(
    m: Host,
    t: TablesView,
    x: Stmt,
    g: Gen,
    b: Made,
    env: Env,
    w: Seq<Op>,
    pc: int,
    s: Seq<Val>,
    f: Frame,
) -> (r: Frame)
    requires
        plain_stmt(t, x, b) is Some,
        in_scope(g.scope, b),
        holds_env(g.scope, env, f),
        stmt_env(m, t, x, env) is Some,
        stmt_code(t, x, g) is Ok,
        placed(w, pc, stmt_code(t, x, g)->Ok_0.0),
    ensures
        run(m, w, pc, s, f) == run(m, w, pc + stmt_code(t, x, g)->Ok_0.0.len(), s, r),
        holds_env(stmt_code(t, x, g)->Ok_0.1.scope, stmt_env(m, t, x, env)->0, r),
        keeps(f, r, g.scope.next_local),
    decreases x, 1int, 0int,
{
    match x.kind {
        StmtKind::Let(l) => {
            let (c, h) = expr_code(t, l.init, g, false)->Ok_0;
            let op = Op::StoreLocal(h.scope.next_local);
            let v = value(m, t, l.init, env)->0;
            let d = plain(t, l.init, b)->0;
            assert(c.push(op) =~= c + seq![op]);
            lemma_placed(w, pc, c, seq![op]);
            let f1 = expressions_leave_their_value(m, t, l.init, g, false, b, env, w, pc, s, f);
            assert(w[pc + c.len()] == op);
            lemma_store(m, w, pc + c.len(), s, v, f1, h.scope.next_local);
            lemma_expr_scope(t, l.init, g, false, b);
            lemma_env_kept(g.scope, h.scope, b, env, f, f1);
            lemma_env_bound(h.scope, d, env, f1, l.id, l.name@, v);
            let f2 = Frame { locals: f1.locals.insert(h.scope.next_local, v), ..f1 };
            lemma_keeps(f, f1, f2, g.scope.next_local, h.scope.next_local);
            f2
        },
        StmtKind::Expr(e) => {
            let (c, h) = expr_code(t, e, g, false)->Ok_0;
            let op = Op::Plain(Opcode::Pop);
            assert(c.push(op) =~= c + seq![op]);
            lemma_placed(w, pc, c, seq![op]);
            let f1 = expressions_leave_their_value(m, t, e, g, false, b, env, w, pc, s, f);
            assert(w[pc + c.len()] == op);
            lemma_pop(m, w, pc + c.len(), s, value(m, t, e, env)->0, f1);
            lemma_expr_scope(t, e, g, false, b);
            lemma_env_kept(g.scope, h.scope, b, env, f, f1);
            f1
        },
        _ => f,
    }
}

// ── matching ────────────────────────────────────────────────────────────────

/// What is on the stack where a pattern is tried: the value, and below a copy of it
/// where more arms follow.
spec fn tried(s: Seq<Val>, v: Val, is_last: bool) -> Seq<Val> {
    if is_last {
        s.push(v)
    } else {
        s.push(v).push(v)
    }
}

/// What is on the stack where a pattern has failed.
spec fn failed(s: Seq<Val>, v: Val, is_last: bool) -> Seq<Val> {
    if is_last {
        s
    } else {
        s.push(v)
    }
}

proof fn lemma_dropped(
    m: Host,
    w: Seq<Op>,
    pc: int,
    s: Seq<Val>,
    v: Val,
    f: Frame,
    is_last: bool,
)
    requires
        placed(w, pc, drop_original(is_last)),
    ensures
        run(m, w, pc, failed(s, v, is_last), f) == run(
            m,
            w,
            pc + drop_original(is_last).len(),
            s,
            f,
        ),
{
    if !is_last {
        assert(w[pc] == drop_original(is_last)[0]);
        lemma_pop(m, w, pc, s, v, f);
    }
}

proof fn lemma_pattern_run(
    m: Host,
    t: TablesView,
    p: Pattern,
    is_last: bool,
    z: Scope,
    b: Made,
    env: Env,
    v: Val,
    w: Seq<Op>,
    pc: int,
    s: Seq<Val>,
    f: Frame,
    n: nat,
) -> (r: Frame)
    requires
        plain_pattern(p, is_last, b) is Some,
        in_scope(z, b),
        holds_env(z, env, f),
        pattern_code(t, p, is_last, z) is Ok,
        placed(w, pc, failing_past(pattern_code(t, p, is_last, z)->Ok_0, n)),
        pc + pattern_code(t, p, is_last, z)->Ok_0.code.len() + n <= w.len(),
        !(fit(m, t, p, v, env) is Unknown),
    ensures
        ({
            let c = pattern_code(t, p, is_last, z)->Ok_0;
            &&& failing_past(c, n).len() == c.code.len()
            &&& keeps(f, r, z.next_local)
            &&& match fit(m, t, p, v, env) {
                Fit::Yes(inner) => run(m, w, pc, tried(s, v, is_last), f) == run(
                    m,
                    w,
                    pc + c.code.len(),
                    s,
                    r,
                ) && holds_env(c.scope, inner, r),
                _ => c.fail is Some && run(m, w, pc, tried(s, v, is_last), f) == run(
                    m,
                    w,
                    pc + c.code.len() + n,
                    failed(s, v, is_last),
                    r,
                ) && r == f,
            }
        }),
{
    let c = pattern_code(t, p, is_last, z)->Ok_0;
    let code = failing_past(c, n);
    let k = drop_original(is_last);
    assert(tried(s, v, is_last) == failed(s, v, is_last).push(v));
    let low = failed(s, v, is_last);
    match p.kind {
        PatternKind::Binding(id, name) => {
            assert(code =~= seq![Op::StoreLocal(z.next_local)] + k);
            lemma_placed(w, pc, seq![Op::StoreLocal(z.next_local)], k);
            assert(w[pc] == code[0]);
            lemma_store(m, w, pc, low, v, f, z.next_local);
            let f1 = Frame { locals: f.locals.insert(z.next_local, v), ..f };
            lemma_env_bound(z, b, env, f, id, name@, v);
            lemma_dropped(m, w, pc + 1, s, v, f1, is_last);
            f1
        },
        PatternKind::Literal(lit) => {
            let skip = Op::JumpIfNot((k.len() + n) as int);
            let head = seq![Op::Push(literal_constant(lit)), Op::Plain(Opcode::Eq), skip];
            assert(code =~= head + k);
            lemma_placed(w, pc, head, k);
            assert(w[pc] == head[0] && w[pc + 1] == head[1] && w[pc + 2] == head[2]);
            let l = literal_value(lit);
            lemma_push(m, w, pc, low.push(v), f, literal_constant(lit));
            assert(low.push(v).push(l) =~= low + seq![v, l]);
            let same = (m.same)(v, l);
            lemma_split(low, seq![v, l]);
            lemma_taking(m, w, pc + 1, low, seq![v, l], f, head[1], Val::Bool(same));
            lemma_branch(m, w, pc + 2, low, same, f, (k.len() + n) as int);
            if same {
                lemma_dropped(m, w, pc + 3, s, v, f, is_last);
            }
            f
        },
        PatternKind::Variant(name, inner) => {
            lemma_variant_run(m, t, p, is_last, z, b, env, v, w, pc, s, f, n)
        },
        _ => f,
    }
}

proof fn lemma_variant_run(
    m: Host,
    t: TablesView,
    p: Pattern,
    is_last: bool,
    z: Scope,
    b: Made,
    env: Env,
    v: Val,
    w: Seq<Op>,
    pc: int,
    s: Seq<Val>,
    f: Frame,
    n: nat,
) -> (r: Frame)
    requires
        p.kind is Variant,
        plain_pattern(p, is_last, b) is Some,
        in_scope(z, b),
        holds_env(z, env, f),
        pattern_code(t, p, is_last, z) is Ok,
        placed(w, pc, failing_past(pattern_code(t, p, is_last, z)->Ok_0, n)),
        pc + pattern_code(t, p, is_last, z)->Ok_0.code.len() + n <= w.len(),
        !(fit(m, t, p, v, env) is Unknown),
    ensures
        ({
            let c = pattern_code(t, p, is_last, z)->Ok_0;
            &&& failing_past(c, n).len() == c.code.len()
            &&& keeps(f, r, z.next_local)
            &&& match fit(m, t, p, v, env) {
                Fit::Yes(inner) => run(m, w, pc, tried(s, v, is_last), f) == run(
                    m,
                    w,
                    pc + c.code.len(),
                    s,
                    r,
                ) && holds_env(c.scope, inner, r),
                _ => c.fail is Some && run(m, w, pc, tried(s, v, is_last), f) == run(
                    m,
                    w,
                    pc + c.code.len() + n,
                    failed(s, v, is_last),
                    r,
                ) && r == f,
            }
        }),
{
    let c = pattern_code(t, p, is_last, z)->Ok_0;
    let code = failing_past(c, n);
    let k = drop_original(is_last);
    let low = failed(s, v, is_last);
    assert(tried(s, v, is_last) == low.push(v));
    let name = p.kind->Variant_0;
    let inner = p.kind->Variant_1;
    let tag = t.enums[name.name@].tag;
    let e = v->Enum_0;
    let matched = match inner {
        None => seq![Op::Plain(Opcode::Pop)] + k,
        Some(sub) => seq![Op::Plain(Opcode::EnumPayload)] + pattern_code(
            t,
            *sub,
            true,
            z,
        )->Ok_0.code + k,
    };
    let head = seq![Op::EnumIs(tag), Op::JumpIfNot((matched.len() + 1) as int)];
    let foot = seq![Op::Jump(2), Op::Plain(Opcode::Pop), Op::Jump(n as int)];
    assert(c.code =~= head + matched + seq![Op::Jump(2), Op::Plain(Opcode::Pop), Op::Jump(0)]);
    assert(code =~= head + matched + foot);
    lemma_placed(w, pc, head + matched, foot);
    lemma_placed(w, pc, head, matched);
    let q = pc + 2;
    let u = q + matched.len();
    assert(w[pc] == head[0] && w[pc + 1] == head[1]);
    assert(w[u] == foot[0] && w[u + 1] == foot[1] && w[u + 2] == foot[2]);
    let fits = e.tag == tag;
    lemma_step(m, w, pc, low.push(v), f, head[0]);
    lemma_branch(m, w, pc + 1, low.push(v), fits, f, (matched.len() + 1) as int);
    if fits {
        let f1 = match inner {
            None => {
                lemma_placed(w, q, seq![Op::Plain(Opcode::Pop)], k);
                assert(w[q] == matched[0]);
                lemma_pop(m, w, q, low, v, f);
                lemma_dropped(m, w, q + 1, s, v, f, is_last);
                f
            },
            Some(sub) => {
                let id = sub.kind->Binding_0;
                let text = sub.kind->Binding_1@;
                let x = e.payload[0];
                assert(pattern_code(t, *sub, true, z)->Ok_0.code =~= seq![
                    Op::StoreLocal(z.next_local),
                ]);
                let two = seq![Op::Plain(Opcode::EnumPayload), Op::StoreLocal(z.next_local)];
                assert(matched =~= two + k);
                lemma_placed(w, q, two, k);
                assert(w[q] == two[0] && w[q + 1] == two[1]);
                assert(low.push(v) =~= low + seq![v]);
                lemma_split(low, seq![v]);
                lemma_taking(m, w, q, low, seq![v], f, two[0], x);
                lemma_store(m, w, q + 1, low, x, f, z.next_local);
                lemma_env_bound(z, b, env, f, id, text, x);
                let f1 = Frame { locals: f.locals.insert(z.next_local, x), ..f };
                lemma_dropped(m, w, q + 2, s, v, f1, is_last);
                f1
            },
        };
        lemma_jump(m, w, u, s, f1, 2);
        f1
    } else {
        lemma_pop(m, w, u + 1, low, v, f);
        lemma_jump(m, w, u + 2, low, f, n as int);
        f
    }
}

#[verifier::rlimit(100)]
proof fn lemma_arms_run(
    m: Host,
    t: TablesView,
    arms: Seq<MatchArm>,
    i: nat,
    g: Gen,
    tail: bool,
    b: Made,
    env: Env,
    v: Val,
    w: Seq<Op>,
    pc: int,
    s: Seq<Val>,
    f: Frame,
) -> (r: Frame)
    requires
        plain_arms(t, arms, i, b) is Some,
        in_scope(g.scope, b),
        holds_env(g.scope, env, f),
        arms_value(m, t, arms, i, v, env) is Some,
        arms_code(t, arms, i, g, tail) is Ok,
        placed(w, pc, arms_code(t, arms, i, g, tail)->Ok_0.0),
    ensures
        ({
            let n = arms_code(t, arms, i, g, tail)->Ok_0.0.len() as int;
            let x = arms_value(m, t, arms, i, v, env)->0;
            run(m, w, pc, s.push(v), f) == run(m, w, pc + n, s.push(x), r) || (tail && run(
                m,
                w,
                pc,
                s.push(v),
                f,
            ) == Outcome::Returned(x))
        }),
        keeps(f, r, g.scope.next_local),
    decreases arms, 0int, arms.len() - i,
{
    let is_last = i == arms.len() - 1;
    let arm = arms[i as int];
    let p = pattern_code(t, arm.pattern, is_last, g.scope)->Ok_0;
    let h = Gen { scope: p.scope, ..g };
    let (bc, k) = expr_code(t, arm.body, h, tail)->Ok_0;
    let others = arms_code(t, arms, i + 1, k, tail)->Ok_0.0;
    let rest = arm_rest(None, p.fail is Some, bc, others.len());
    let dup = keep_original(is_last);
    let pat = failing_past(p, rest.len());
    let code = arms_code(t, arms, i, g, tail)->Ok_0.0;
    assert(code =~= dup + pat + rest + others);
    lemma_placed(w, pc, dup + pat + rest, others);
    lemma_placed(w, pc, dup + pat, rest);
    lemma_placed(w, pc, dup, pat);
    let q = pc + dup.len();
    if !is_last {
        assert(w[pc] == dup[0]);
        lemma_dup(m, w, pc, s, v, f);
    }
    assert(run(m, w, pc, s.push(v), f) == run(m, w, q, tried(s, v, is_last), f));
    assert(pat.len() == p.code.len());
    let c = plain_pattern(arm.pattern, is_last, b)->0;
    let f1 = lemma_pattern_run(
        m,
        t,
        arm.pattern,
        is_last,
        g.scope,
        b,
        env,
        v,
        w,
        q,
        s,
        f,
        rest.len(),
    );
    lemma_pattern_scope(t, arm.pattern, is_last, g.scope, b);
    let at = q + pat.len();
    match fit(m, t, arm.pattern, v, env) {
        Fit::Yes(inner) => {
            let x = value(m, t, arm.body, inner)->0;
            if p.fail is Some {
                let end = seq![Op::Jump(others.len() as int)];
                assert(rest =~= bc + end);
                lemma_placed(w, at, bc, end);
                assert(w[at + bc.len()] == end[0]);
                let f2 = expressions_leave_their_value(m, t, arm.body, h, tail, c, inner, w, at, s, f1);
                lemma_jump(m, w, at + bc.len(), s.push(x), f2, others.len() as int);
                lemma_keeps(f, f1, f2, g.scope.next_local, h.scope.next_local);
                f2
            } else {
                assert(arms_code(t, arms, i + 1, k, tail)->Ok_0.0 =~= seq![]);
                let f2 = expressions_leave_their_value(m, t, arm.body, h, tail, c, inner, w, at, s, f1);
                lemma_keeps(f, f1, f2, g.scope.next_local, h.scope.next_local);
                f2
            }
        },
        _ => {
            assert(!is_last) by {
                if is_last {
                    assert(arms_value(m, t, arms, i + 1, v, env) is None);
                }
            }
            lemma_expr_scope(t, arm.body, h, tail, c);
            let d = plain(t, arm.body, c)->0;
            lemma_grows(g.scope, h.scope, k.scope);
            lemma_env_kept(g.scope, k.scope, b, env, f, f);
            let f2 = lemma_arms_run(
                m,
                t,
                arms,
                i + 1,
                k,
                tail,
                d,
                env,
                v,
                w,
                at + rest.len(),
                s,
                f,
            );
            lemma_keeps(f, f, f2, g.scope.next_local, k.scope.next_local);
            f2
        },
    }
}

} // verus!
