//! Compiling expressions against functions whose hashes have moved: the code is
//! the same but for those hashes.

use vstd::prelude::*;

use crate::ast::{
    name_key, BinaryOp, ConstDef, DictMethod, DictSource, Dicts, Expr, ExprKind,
    HandlerLiteralMethod, MatchArm, Param, Pattern, PatternKind, QualifiedName, ResolvedMethod,
    Span, Stmt, StmtKind,
};
use crate::bytecode::{FunctionView, MethodView};
use crate::compiler::code::{op_targets, Op, Opcode};
use crate::compiler::codegen::{
    adapted, all_of, arm_function, arm_groups, arm_params, arm_rest, arm_scope, arm_table,
    arms_code, binary_code, block_code, block_const_code, call_code, captures_code,
    closure_call_code, constant_of, else_code, expr_code, exprs_code, failing_past, fields_code,
    groups_code, handle_code, handler_arms, handler_literal_code, handlers_code, if_code,
    is_variable, keep_original, kind_code, lambda_code, local_code, match_code, method_call_code,
    method_ref, name_code, operands_code, perform_code, result_name, short_circuit_code, stmt_code,
    stmts_code, through_code, unknown_arm_text, unknown_method_text, with_params, ArmTable,
    Installed,
};
use crate::compiler::context::{
    ability_by_id, ability_of, assoc_at, assoc_get, assoc_set, by_slot, closure_scope, counted,
    function_hash, impl_symbol, lambda_hash, with_lambda, with_local, AbilityView, Produced, Scope,
    TablesView,
};
use crate::compiler::dicts::{
    bounded_value_code, built, built_under, dict_code, dict_count, dict_method_code, dicts_code,
    load_dict_code, slot_code, slot_function, slots_code, sources_code, symbols_code, Gen,
};
use crate::compiler::error::ErrorView;
use crate::compiler::moving::{
    alike, all_values, covered, is_lambda_hash, is_value, lemma_built, matching, moved_arms,
    moved_body, moved_built, moved_gen, moved_method, moved_op, moved_out, moved_tables,
    moves_well, settled, used, value_hash,
};
use crate::compiler::patterns::{pattern_code, PatternCode};
use crate::compiler::prelink::moved;
use crate::const_eval::literal;
use crate::fqn::KeyView;
use crate::object::stored_value;
use crate::types::{AbilityId, Type};

verus! {

broadcast use {
    crate::compiler::moving::lemma_matching_add,
    crate::compiler::moving::lemma_matching_push,
};

// ── names ───────────────────────────────────────────────────────────────────

/// A function that a key means still is one, under the moved hash.
pub(crate) proof fn lemma_hash(r: Map<Seq<u8>, Seq<u8>>, t: TablesView, k: KeyView)
    ensures
        match function_hash(t, k) {
            Some(h) => used(t, h) && function_hash(moved_tables(r, t), k) == Some(moved(r, h)),
            None => function_hash(moved_tables(r, t), k) is None,
        },
{
    if let Some(h) = function_hash(t, k) {
        assert(t.function_hashes.contains_key(k) && t.function_hashes[k] == h);
        assert(t.function_hashes.contains_value(h));
    }
}

/// The temporary hash of a lambda stays.
proof fn lemma_lambda_stays(r: Map<Seq<u8>, Seq<u8>>, t: TablesView, n: u32)
    requires
        moves_well(r, t),
    ensures
        settled(t, lambda_hash(n)),
        used(t, lambda_hash(n)),
        moved(r, lambda_hash(n)) == lambda_hash(n),
{
    assert(settled(t, lambda_hash(n)));
}

/// One more lambda, with the hashes moved.
proof fn lemma_lambda_added(
    r: Map<Seq<u8>, Seq<u8>>,
    p: Produced,
    q: Produced,
    f: FunctionView,
    g: FunctionView,
)
    requires
        moved_out(r, p, q),
        moved_body(r, f, g),
    ensures
        moved_out(r, with_lambda(p, f), with_lambda(q, g)),
        moved_out(r, with_lambda(counted(p), f), with_lambda(counted(q), g)),
{
    let x = with_lambda(p, f).lambdas;
    let y = with_lambda(q, g).lambdas;
    assert forall|i: int|
        #![trigger x[i]]
        0 <= i < x.len() implies is_lambda_hash(x[i].0) && x[i].0 == y[i].0 && x[i].1 == y[i].1
        && moved_body(r, x[i].2, y[i].2) by {
        if i < p.lambdas.len() {
            assert(p.lambdas[i].0 == q.lambdas[i].0);
        } else {
            assert(x[i].0 == lambda_hash(p.counter));
        }
    }
    let x = with_lambda(counted(p), f).lambdas;
    let y = with_lambda(counted(q), g).lambdas;
    assert forall|i: int|
        #![trigger x[i]]
        0 <= i < x.len() implies is_lambda_hash(x[i].0) && x[i].0 == y[i].0 && x[i].1 == y[i].1
        && moved_body(r, x[i].2, y[i].2) by {
        if i < p.lambdas.len() {
            assert(p.lambdas[i].0 == q.lambdas[i].0);
        } else {
            assert(x[i].0 == lambda_hash(counted(p).counter));
        }
    }
}

pub(crate) proof fn lemma_assoc_value<A, B>(s: Seq<(A, B)>, k: A)
    ensures
        assoc_at(s, k) < s.len(),
        assoc_get(s, k) matches Some(v) ==> exists|i: int|
            0 <= i < s.len() && #[trigger] s[i] == (k, v),
    decreases s.len(),
{
    if s.len() > 0 {
        let rest = s.drop_last();
        lemma_assoc_value(rest, k);
        if s.last().0 == k {
            assert(s[s.len() - 1] == (k, s.last().1));
        } else if assoc_get(rest, k) is Some {
            let i = choose|i: int| 0 <= i < rest.len() && #[trigger] rest[i] == (
                k,
                assoc_get(rest, k)->0,
            );
            assert(s[i] == rest[i]);
        }
    }
}

/// The object of a constant stays.
proof fn lemma_constant_stays(
    r: Map<Seq<u8>, Seq<u8>>,
    t: TablesView,
    s: Scope,
    n: QualifiedName,
)
    requires
        moves_well(r, t),
        all_values(s.block_consts),
    ensures
        constant_of(moved_tables(r, t), s, n) == constant_of(t, s, n),
        constant_of(t, s, n) matches Some(h) ==> settled(t, h) && used(t, h),
{
    lemma_assoc_value(s.block_consts, n.name@);
    if let Some(h) = constant_of(t, s, n) {
        if n.bare() && assoc_get(s.block_consts, n.name@) is Some {
            let i = choose|i: int| 0 <= i < s.block_consts.len() && #[trigger] s.block_consts[i]
                == (n.name@, h);
            assert(s.block_consts[i].1 == h);
        } else {
            assert(t.const_hashes.contains_key(name_key(n)) && t.const_hashes[name_key(n)] == h);
            assert(t.const_hashes.contains_value(h));
        }
    }
}

// ── dictionaries ────────────────────────────────────────────────────────────

proof fn lemma_load_dict(
    r: Map<Seq<u8>, Seq<u8>>,
    t: TablesView,
    index: nat,
    span: Span,
    g: Gen,
    h: Gen,
)
    requires
        moved_gen(r, g, h),
    ensures
        alike(r, t, load_dict_code(index, span, g), load_dict_code(index, span, h)),
{
}

proof fn lemma_slot_function(
    r: Map<Seq<u8>, Seq<u8>>,
    t: TablesView,
    method: Seq<u8>,
    arity: nat,
    captured: nat,
    own: nat,
)
    requires
        moves_well(r, t),
        used(t, method),
    ensures
        moved_built(
            r,
            slot_function(method, arity, captured, own),
            slot_function(moved(r, method), arity, captured, own),
        ),
{
    let a = slot_code(method, arity, captured, own);
    let b = slot_code(moved(r, method), arity, captured, own);
    assert(matching(r, t, a, b)) by {
        assert(a.len() == arity + captured + own + 2);
        assert forall|i: int| 0 <= i < a.len() implies b[i] == moved_op(r, #[trigger] a[i])
            && covered(t, a[i]) by {
            if i == a.len() - 2 {
                assert(a[i] == Op::Call(method, (arity + captured + own) as u8));
                assert(op_targets(a[i]) =~= seq![method]);
            }
        }
    }
    lemma_built(r, t, a, b, (arity + own) as u16, (arity + own) as u8, seq![]);
}

proof fn lemma_symbols(r: Map<Seq<u8>, Seq<u8>>, t: TablesView, symbols: Seq<String>, span: Span)
    ensures
        match symbols_code(t, symbols, span) {
            Ok(a) => symbols_code(moved_tables(r, t), symbols, span) matches Ok(b) && matching(
                r,
                t,
                a,
                b,
            ),
            Err(e) => symbols_code(moved_tables(r, t), symbols, span) == Err::<Seq<Op>, ErrorView>(
                e,
            ),
        },
    decreases symbols.len(),
{
    if symbols.len() > 0 {
        lemma_symbols(r, t, symbols.drop_last(), span);
        lemma_hash(r, t, KeyView::Bare(symbols.last()@));
    }
}

proof fn lemma_dict(
    r: Map<Seq<u8>, Seq<u8>>,
    t: TablesView,
    source: DictSource,
    span: Span,
    g: Gen,
    h: Gen,
)
    requires
        moves_well(r, t),
        moved_gen(r, g, h),
    ensures
        alike(r, t, dict_code(t, source, span, g), dict_code(moved_tables(r, t), source, span, h)),
    decreases source, 1int, 0int,
{
    match source {
        DictSource::Impl { symbols } => {
            lemma_symbols(r, t, symbols@, span);
        },
        DictSource::Param { dict_index } => {
            lemma_load_dict(r, t, dict_index as nat, span, g, h);
        },
        DictSource::Generic { methods, inner } => {
            lemma_slots(r, t, methods@, inner@, methods@.len(), span, g, h);
        },
    }
}

proof fn lemma_sources(
    r: Map<Seq<u8>, Seq<u8>>,
    t: TablesView,
    sources: Seq<DictSource>,
    span: Span,
    g: Gen,
    h: Gen,
)
    requires
        moves_well(r, t),
        moved_gen(r, g, h),
    ensures
        alike(
            r,
            t,
            sources_code(t, sources, span, g),
            sources_code(moved_tables(r, t), sources, span, h),
        ),
    decreases sources, 0int, sources.len(),
{
    let u = moved_tables(r, t);
    if sources.len() > 0 {
        let rest = sources.drop_last();
        lemma_sources(r, t, rest, span, g, h);
        if let Ok((_, x)) = sources_code(t, rest, span, g) {
            let (_, y) = sources_code(u, rest, span, h)->Ok_0;
            lemma_dict(r, t, sources.last(), span, x, y);
        }
    }
}

proof fn lemma_slots(
    r: Map<Seq<u8>, Seq<u8>>,
    t: TablesView,
    methods: Seq<DictMethod>,
    inner: Seq<DictSource>,
    k: nat,
    span: Span,
    g: Gen,
    h: Gen,
)
    requires
        moves_well(r, t),
        moved_gen(r, g, h),
    ensures
        alike(
            r,
            t,
            slots_code(t, methods, inner, k, span, g),
            slots_code(moved_tables(r, t), methods, inner, k, span, h),
        ),
    decreases inner, 1int, k,
{
    let u = moved_tables(r, t);
    if k > 0 {
        let m = methods[k - 1];
        let before = (k - 1) as nat;
        lemma_slots(r, t, methods, inner, before, span, g, h);
        if let Ok((_, x)) = slots_code(t, methods, inner, before, span, g) {
            let (_, y) = slots_code(u, methods, inner, before, span, h)->Ok_0;
            lemma_hash(r, t, KeyView::Bare(m.symbol@));
            if let Some(hash) = function_hash(t, KeyView::Bare(m.symbol@)) {
                let own = m.method_dict_count as nat;
                lemma_slot_function(r, t, hash, m.arity as nat, inner.len(), own);
                if let Ok(f) = slot_function(hash, m.arity as nat, inner.len(), own) {
                    let f2 = slot_function(moved(r, hash), m.arity as nat, inner.len(), own)->Ok_0;
                    lemma_lambda_added(r, x.out, y.out, f, f2);
                    lemma_lambda_stays(r, t, x.out.counter);
                    lemma_sources(
                        r,
                        t,
                        inner,
                        span,
                        Gen { out: with_lambda(x.out, f), ..x },
                        Gen { out: with_lambda(y.out, f2), ..y },
                    );
                }
            }
        }
    }
}

proof fn lemma_dicts(
    r: Map<Seq<u8>, Seq<u8>>,
    t: TablesView,
    dicts: Option<Dicts>,
    span: Span,
    g: Gen,
    h: Gen,
)
    requires
        moves_well(r, t),
        moved_gen(r, g, h),
    ensures
        alike(r, t, dicts_code(t, dicts, span, g), dicts_code(moved_tables(r, t), dicts, span, h)),
{
    if let Some(Dicts::Resolved(sources)) = dicts {
        lemma_sources(r, t, sources@, span, g, h);
    }
}

proof fn lemma_bounded_value(
    r: Map<Seq<u8>, Seq<u8>>,
    t: TablesView,
    function: Seq<u8>,
    ty: Option<Type>,
    sources: Seq<DictSource>,
    span: Span,
    g: Gen,
    h: Gen,
)
    requires
        moves_well(r, t),
        used(t, function),
        moved_gen(r, g, h),
    ensures
        alike(
            r,
            t,
            bounded_value_code(t, function, ty, sources, span, g),
            bounded_value_code(moved_tables(r, t), moved(r, function), ty, sources, span, h),
        ),
{
    if let Some(Type::Function(params, _)) = ty {
        lemma_slot_function(r, t, function, params@.len(), sources.len(), 0);
        if let Ok(f) = slot_function(function, params@.len(), sources.len(), 0) {
            let f2 = slot_function(moved(r, function), params@.len(), sources.len(), 0)->Ok_0;
            lemma_lambda_added(r, g.out, h.out, f, f2);
            lemma_lambda_stays(r, t, g.out.counter);
            lemma_sources(
                r,
                t,
                sources,
                span,
                Gen { out: with_lambda(g.out, f), ..g },
                Gen { out: with_lambda(h.out, f2), ..h },
            );
        }
    }
}

// ── parts without references ────────────────────────────────────────────────

proof fn lemma_local(
    r: Map<Seq<u8>, Seq<u8>>,
    t: TablesView,
    id: u32,
    span: Span,
    g: Gen,
    h: Gen,
)
    requires
        moved_gen(r, g, h),
    ensures
        alike(r, t, local_code(id, span, g), local_code(id, span, h)),
{
}

proof fn lemma_pattern(
    r: Map<Seq<u8>, Seq<u8>>,
    t: TablesView,
    p: Pattern,
    is_last: bool,
    s: Scope,
)
    ensures
        pattern_code(moved_tables(r, t), p, is_last, s) == pattern_code(t, p, is_last, s),
        pattern_code(t, p, is_last, s) matches Ok(c) ==> matching(r, t, c.code, c.code)
            && c.scope.block_consts == s.block_consts && (c.fail matches Some(i) ==> 0 <= i
            < c.code.len()),
    decreases p,
{
    if let PatternKind::Variant(_, Some(sub)) = p.kind {
        lemma_pattern(r, t, *sub, true, s);
    }
}

proof fn lemma_failing_past(r: Map<Seq<u8>, Seq<u8>>, t: TablesView, p: PatternCode, n: nat)
    requires
        matching(r, t, p.code, p.code),
        p.fail matches Some(i) ==> 0 <= i < p.code.len(),
    ensures
        matching(r, t, failing_past(p, n), failing_past(p, n)),
{
    let a = failing_past(p, n);
    assert forall|i: int| 0 <= i < a.len() implies a[i] == moved_op(r, #[trigger] a[i]) && covered(
        t,
        a[i],
    ) by {
        assert(p.code[i] == moved_op(r, p.code[i]));
    }
}

proof fn lemma_arm_rest(
    r: Map<Seq<u8>, Seq<u8>>,
    t: TablesView,
    ga: Option<Seq<Op>>,
    gb: Option<Seq<Op>>,
    can_fail: bool,
    a: Seq<Op>,
    b: Seq<Op>,
    others: nat,
)
    requires
        ga is Some == gb is Some,
        ga is Some ==> matching(r, t, ga->0, gb->0),
        matching(r, t, a, b),
    ensures
        matching(r, t, arm_rest(ga, can_fail, a, others), arm_rest(gb, can_fail, b, others)),
{
}

proof fn lemma_adapted(r: Map<Seq<u8>, Seq<u8>>, t: TablesView, op: BinaryOp)
    ensures
        matching(r, t, adapted(op), adapted(op)),
{
}

proof fn lemma_captures(
    r: Map<Seq<u8>, Seq<u8>>,
    t: TablesView,
    s: Scope,
    caps: Seq<(Seq<char>, u16)>,
)
    ensures
        captures_code(s, caps) matches Ok((code, now)) ==> matching(r, t, code, code)
            && now.block_consts == s.block_consts,
    decreases caps.len(),
{
    if caps.len() > 0 {
        lemma_captures(r, t, s, caps.drop_last());
    }
}

proof fn lemma_through(
    r: Map<Seq<u8>, Seq<u8>>,
    t: TablesView,
    s: Scope,
    caps: Seq<(Seq<char>, u16)>,
)
    ensures
        matching(r, t, through_code(s, caps).0, through_code(s, caps).0),
        through_code(s, caps).1.block_consts == s.block_consts,
    decreases caps.len(),
{
    if caps.len() > 0 {
        lemma_through(r, t, s, caps.drop_last());
    }
}

pub(crate) proof fn lemma_params(s: Scope, params: Seq<Param>)
    ensures
        with_params(s, params) matches Ok(now) ==> now.block_consts == s.block_consts,
    decreases params.len(),
{
    if params.len() > 0 {
        lemma_params(s, params.drop_last());
    }
}

proof fn lemma_arm_params(
    r: Map<Seq<u8>, Seq<u8>>,
    t: TablesView,
    s: Scope,
    params: Seq<Param>,
)
    ensures
        arm_params(s, params) matches Ok((code, now)) ==> matching(r, t, code, code)
            && now.block_consts == s.block_consts,
    decreases params.len(),
{
    if params.len() > 0 {
        lemma_arm_params(r, t, s, params.drop_last());
    }
}

proof fn lemma_arm_groups(
    r: Map<Seq<u8>, Seq<u8>>,
    t: TablesView,
    ms: Seq<HandlerLiteralMethod>,
    k: int,
)
    ensures
        arm_groups(moved_tables(r, t), ms, k) == arm_groups(t, ms, k),
    decreases k,
{
    if k > 0 {
        lemma_arm_groups(r, t, ms, k - 1);
    }
}

proof fn lemma_block_const(
    r: Map<Seq<u8>, Seq<u8>>,
    t: TablesView,
    c: ConstDef,
    g: Gen,
    h: Gen,
)
    requires
        moved_gen(r, g, h),
    ensures
        alike(r, t, block_const_code(c, g), block_const_code(c, h)),
{
    if let Some(v) = literal(c.value) {
        if let Some(s) = stored_value(v) {
            let was = g.scope.block_consts;
            let now = assoc_set(was, c.name@, value_hash(s));
            lemma_assoc_value(was, c.name@);
            assert forall|i: int| 0 <= i < now.len() implies is_value((#[trigger] now[i]).1) by {
                if i < was.len() {
                    assert(is_value(was[i].1));
                }
            }
        }
    }
}

proof fn lemma_method_ref(
    r: Map<Seq<u8>, Seq<u8>>,
    t: TablesView,
    info: AbilityView,
    method: Seq<char>,
    span: Span,
    unknown: Seq<char>,
)
    ensures
        match method_ref(t, info, method, span, unknown) {
            Ok(m) => method_ref(moved_tables(r, t), info, method, span, unknown) == Ok::<
                MethodView,
                ErrorView,
            >(moved_method(r, m)),
            Err(e) => method_ref(moved_tables(r, t), info, method, span, unknown) == Err::<
                MethodView,
                ErrorView,
            >(e),
        },
{
    lemma_hash(r, t, KeyView::Bare(impl_symbol(info.uuid, method)));
}

proof fn lemma_name(
    r: Map<Seq<u8>, Seq<u8>>,
    t: TablesView,
    e: Expr,
    n: QualifiedName,
    g: Gen,
    h: Gen,
)
    requires
        moves_well(r, t),
        moved_gen(r, g, h),
    ensures
        alike(r, t, name_code(t, e, n, g), name_code(moved_tables(r, t), e, n, h)),
{
    if is_variable(g.scope, n) {
    } else {
        lemma_constant_stays(r, t, g.scope, n);
        lemma_hash(r, t, name_key(n));
        if constant_of(t, g.scope, n) is Some {
        } else if let Some(f) = function_hash(t, name_key(n)) {
            if t.thunks.contains(name_key(n)) {
            } else if dict_count(e.dicts) > 0 {
                let sources = e.dicts->0->Resolved_0@;
                lemma_bounded_value(r, t, f, e.ty, sources, e.span, g, h);
            } else {
                lemma_dicts(r, t, e.dicts, e.span, g, h);
            }
        }
    }
}

// ── expressions ─────────────────────────────────────────────────────────────

pub(crate) proof fn lemma_expr(
    r: Map<Seq<u8>, Seq<u8>>,
    t: TablesView,
    e: Expr,
    tail: bool,
    g: Gen,
    h: Gen,
)
    requires
        moves_well(r, t),
        moved_gen(r, g, h),
    ensures
        alike(
            r,
            t,
            expr_code(t, e, g, tail),
            expr_code(moved_tables(r, t), e, h, tail),
        ),
    decreases e, 3int, 0int,
{
    lemma_kind(r, t, e, tail, g, h);
}

proof fn lemma_kind(
    r: Map<Seq<u8>, Seq<u8>>,
    t: TablesView,
    e: Expr,
    tail: bool,
    g: Gen,
    h: Gen,
)
    requires
        moves_well(r, t),
        moved_gen(r, g, h),
    ensures
        alike(
            r,
            t,
            kind_code(t, e, g, tail),
            kind_code(moved_tables(r, t), e, h, tail),
        ),
    decreases e, 2int, 0int,
{
    match e.kind {
        ExprKind::Unit => {},
        ExprKind::Bool(_) => {},
        ExprKind::Number(_) => {},
        ExprKind::String(_) => {},
        ExprKind::Local(id) => {
            lemma_local(r, t, id, e.span, g, h);
        },
        ExprKind::Name(n) => {
            lemma_name(r, t, e, n, g, h);
        },
        ExprKind::Tuple(es) => {
            lemma_exprs(r, t, es@, g, h);
        },
        ExprKind::TupleIndex(tuple, _) => {
            lemma_expr(r, t, *tuple, false, g, h);
        },
        ExprKind::Record(fields) => {
            lemma_fields(r, t, fields@, g, h);
        },
        ExprKind::TypedRecord { name, fields } => {
            lemma_fields(r, t, fields@, g, h);
        },
        ExprKind::RecordField(record, _) => {
            lemma_expr(r, t, *record, false, g, h);
        },
        ExprKind::List(es) => {
            lemma_exprs(r, t, es@, g, h);
        },
        ExprKind::Binary { op, left, right, resolved_op } => {
            lemma_binary(r, t, e, tail, g, h);
        },
        ExprKind::Unary(_, operand) => {
            lemma_expr(r, t, *operand, false, g, h);
        },
        ExprKind::If(_, _, _) => {
            lemma_if(r, t, e, tail, g, h);
        },
        ExprKind::Match(_, _) => {
            lemma_match(r, t, e, tail, g, h);
        },
        ExprKind::Block(_, _) => {
            lemma_block(r, t, e, tail, g, h);
        },
        ExprKind::Lambda(_) => {
            lemma_lambda(r, t, e, g, h);
        },
        ExprKind::Call(_, _) => {
            lemma_call(r, t, e, tail, g, h);
        },
        ExprKind::Perform(_) => {
            lemma_perform(r, t, e, g, h);
        },
        ExprKind::Handle(_) => {
            lemma_handle(r, t, e, g, h);
        },
        ExprKind::Resume(value) => {
            lemma_expr(r, t, *value, false, g, h);
        },
        ExprKind::HandlerLiteral(_) => {
            lemma_handler_literal(r, t, e, g, h);
        },
        ExprKind::Sandbox(s) => {
            lemma_expr(r, t, *s.body, tail, g, h);
        },
        ExprKind::MethodCall { receiver, method, args, resolved_method } => {
            lemma_method_call(r, t, e, tail, g, h);
        },
    }
}

proof fn lemma_exprs(
    r: Map<Seq<u8>, Seq<u8>>,
    t: TablesView,
    es: Seq<Expr>,
    g: Gen,
    h: Gen,
)
    requires
        moves_well(r, t),
        moved_gen(r, g, h),
    ensures
        alike(
            r,
            t,
            exprs_code(t, es, g),
            exprs_code(moved_tables(r, t), es, h),
        ),
    decreases es, 0int, es.len(),
{
    if es.len() > 0 {
        let rest = es.drop_last();
        lemma_exprs(r, t, rest, g, h);
        if let Ok((_, x)) = exprs_code(t, rest, g) {
            let (_, y) = exprs_code(moved_tables(r, t), rest, h)->Ok_0;
            lemma_expr(r, t, es.last(), false, x, y);
        }
    }
}

proof fn lemma_fields(
    r: Map<Seq<u8>, Seq<u8>>,
    t: TablesView,
    fields: Seq<(String, Expr)>,
    g: Gen,
    h: Gen,
)
    requires
        moves_well(r, t),
        moved_gen(r, g, h),
    ensures
        alike(
            r,
            t,
            fields_code(t, fields, g),
            fields_code(moved_tables(r, t), fields, h),
        ),
    decreases fields, 0int, fields.len(),
{
    if fields.len() > 0 {
        let rest = fields.drop_last();
        lemma_fields(r, t, rest, g, h);
        if let Ok((_, x)) = fields_code(t, rest, g) {
            let (_, y) = fields_code(moved_tables(r, t), rest, h)->Ok_0;
            lemma_expr(r, t, fields.last().1, false, x, y);
        }
    }
}

proof fn lemma_operands(
    r: Map<Seq<u8>, Seq<u8>>,
    t: TablesView,
    e: Expr,
    g: Gen,
    h: Gen,
)
    requires
        moves_well(r, t),
        moved_gen(r, g, h),
    ensures
        alike(
            r,
            t,
            operands_code(t, e, g),
            operands_code(moved_tables(r, t), e, h),
        ),
    decreases e, 0int, 0int,
{
    if let ExprKind::Binary { op, left, right, resolved_op } = e.kind {
        lemma_expr(r, t, *left, false, g, h);
        if let Ok((_, x)) = expr_code(t, *left, g, false) {
            let (_, y) = expr_code(moved_tables(r, t), *left, h, false)->Ok_0;
            lemma_expr(r, t, *right, false, x, y);
        }
    }
}

proof fn lemma_short_circuit(
    r: Map<Seq<u8>, Seq<u8>>,
    t: TablesView,
    e: Expr,
    tail: bool,
    g: Gen,
    h: Gen,
)
    requires
        moves_well(r, t),
        moved_gen(r, g, h),
    ensures
        alike(
            r,
            t,
            short_circuit_code(t, e, g, tail),
            short_circuit_code(moved_tables(r, t), e, h, tail),
        ),
    decreases e, 0int, 0int,
{
    if let ExprKind::Binary { op, left, right, resolved_op } = e.kind {
        lemma_expr(r, t, *left, false, g, h);
        if let Ok((_, x)) = expr_code(t, *left, g, false) {
            let (_, y) = expr_code(moved_tables(r, t), *left, h, false)->Ok_0;
            lemma_expr(r, t, *right, tail, x, y);
        }
    }
}

proof fn lemma_binary(
    r: Map<Seq<u8>, Seq<u8>>,
    t: TablesView,
    e: Expr,
    tail: bool,
    g: Gen,
    h: Gen,
)
    requires
        moves_well(r, t),
        moved_gen(r, g, h),
    ensures
        alike(
            r,
            t,
            binary_code(t, e, g, tail),
            binary_code(moved_tables(r, t), e, h, tail),
        ),
    decreases e, 1int, 0int,
{
    if let ExprKind::Binary { op, left, right, resolved_op } = e.kind {
        if op == BinaryOp::And || op == BinaryOp::Or {
            lemma_short_circuit(r, t, e, tail, g, h);
        } else {
            let more = adapted(op);
            lemma_adapted(r, t, op);
            match resolved_op {
                Some(ResolvedMethod::DictSlot { dict_index, slot }) => {
                    lemma_load_dict(r, t, dict_index as nat, e.span, g, h);
                    let call = seq![Op::CallClosure(2)];
                    assert(matching(r, t, call, call));
                    assert(matching(r, t, call + more, call + more));
                    if let Ok((_, x)) = dict_method_code(dict_index as nat, slot as nat, e.span, g) {
                        let (_, y) = dict_method_code(
                            dict_index as nat,
                            slot as nat,
                            e.span,
                            h,
                        )->Ok_0;
                        lemma_operands(r, t, e, x, y);
                    }
                },
                Some(ResolvedMethod::Symbol(symbol)) => {
                    lemma_operands(r, t, e, g, h);
                    lemma_hash(r, t, KeyView::Bare(symbol@));
                    if let Some(f) = function_hash(t, KeyView::Bare(symbol@)) {
                        let first = seq![Op::Call(f, 2)];
                        let second = seq![Op::Call(moved(r, f), 2)];
                        assert(matching(r, t, first, second));
                        assert(matching(r, t, first + more, second + more));
                    }
                },
                None => {
                    lemma_operands(r, t, e, g, h);
                },
            }
        }
    }
}

proof fn lemma_if(
    r: Map<Seq<u8>, Seq<u8>>,
    t: TablesView,
    e: Expr,
    tail: bool,
    g: Gen,
    h: Gen,
)
    requires
        moves_well(r, t),
        moved_gen(r, g, h),
    ensures
        alike(
            r,
            t,
            if_code(t, e, g, tail),
            if_code(moved_tables(r, t), e, h, tail),
        ),
    decreases e, 1int, 0int,
{
    let u = moved_tables(r, t);
    if let ExprKind::If(cond, yes, no) = e.kind {
        lemma_expr(r, t, *cond, false, g, h);
        if let Ok((_, x)) = expr_code(t, *cond, g, false) {
            let (_, y) = expr_code(u, *cond, h, false)->Ok_0;
            lemma_expr(r, t, *yes, tail, x, y);
            if let Ok((_, x2)) = expr_code(t, *yes, x, tail) {
                let (_, y2) = expr_code(u, *yes, y, tail)->Ok_0;
                if let Some(n) = no {
                    lemma_expr(r, t, *n, tail, x2, y2);
                }
            }
        }
    }
}

proof fn lemma_match(
    r: Map<Seq<u8>, Seq<u8>>,
    t: TablesView,
    e: Expr,
    tail: bool,
    g: Gen,
    h: Gen,
)
    requires
        moves_well(r, t),
        moved_gen(r, g, h),
    ensures
        alike(
            r,
            t,
            match_code(t, e, g, tail),
            match_code(moved_tables(r, t), e, h, tail),
        ),
    decreases e, 1int, 0int,
{
    if let ExprKind::Match(value, arms) = e.kind {
        lemma_expr(r, t, *value, false, g, h);
        if let Ok((_, x)) = expr_code(t, *value, g, false) {
            let (_, y) = expr_code(moved_tables(r, t), *value, h, false)->Ok_0;
            lemma_arms(r, t, arms@, 0, tail, x, y);
        }
    }
}

proof fn lemma_arms(
    r: Map<Seq<u8>, Seq<u8>>,
    t: TablesView,
    arms: Seq<MatchArm>,
    i: nat,
    tail: bool,
    g: Gen,
    h: Gen,
)
    requires
        moves_well(r, t),
        moved_gen(r, g, h),
    ensures
        alike(
            r,
            t,
            arms_code(t, arms, i, g, tail),
            arms_code(moved_tables(r, t), arms, i, h, tail),
        ),
    decreases arms, 0int, arms.len() - i,
{
    let u = moved_tables(r, t);
    if i < arms.len() {
        let arm = arms[i as int];
        let is_last = i == arms.len() - 1;
        lemma_pattern(r, t, arm.pattern, is_last, g.scope);
        if let Ok(p) = pattern_code(t, arm.pattern, is_last, g.scope) {
            let x = Gen { scope: p.scope, ..g };
            let y = Gen { scope: p.scope, ..h };
            if let Some(c) = arm.guard {
                lemma_expr(r, t, c, false, x, y);
            }
            let first = match arm.guard {
                Some(c) => match expr_code(t, c, x, false) {
                    Err(e) => Err(e),
                    Ok((a, k)) => Ok((Some(a), k)),
                },
                None => Ok((None, x)),
            };
            let second = match arm.guard {
                Some(c) => match expr_code(u, c, y, false) {
                    Err(e) => Err(e),
                    Ok((b, k)) => Ok((Some(b), k)),
                },
                None => Ok((None, y)),
            };
            if let Ok((ga, x)) = first {
                let (gb, y) = second->Ok_0;
                lemma_expr(r, t, arm.body, tail, x, y);
                if let Ok((a, x)) = expr_code(t, arm.body, x, tail) {
                    let (b, y) = expr_code(u, arm.body, y, tail)->Ok_0;
                    lemma_arms(r, t, arms, i + 1, tail, x, y);
                    if let Ok((c, _)) = arms_code(t, arms, i + 1, x, tail) {
                        let (d, _) = arms_code(u, arms, i + 1, y, tail)->Ok_0;
                        let can_fail = p.fail is Some;
                        let ra = arm_rest(ga, can_fail, a, c.len());
                        let rb = arm_rest(gb, can_fail, b, d.len());
                        lemma_arm_rest(r, t, ga, gb, can_fail, a, b, c.len());
                        lemma_failing_past(r, t, p, ra.len());
                        let keep = keep_original(is_last);
                        let fail = failing_past(p, ra.len());
                        assert(matching(r, t, keep, keep));
                        assert(matching(r, t, keep + fail, keep + fail));
                        assert(matching(r, t, keep + fail + ra, keep + fail + rb));
                        assert(matching(r, t, keep + fail + ra + c, keep + fail + rb + d));
                    }
                }
            }
        }
    }
}

proof fn lemma_block(
    r: Map<Seq<u8>, Seq<u8>>,
    t: TablesView,
    e: Expr,
    tail: bool,
    g: Gen,
    h: Gen,
)
    requires
        moves_well(r, t),
        moved_gen(r, g, h),
    ensures
        alike(
            r,
            t,
            block_code(t, e, g, tail),
            block_code(moved_tables(r, t), e, h, tail),
        ),
    decreases e, 1int, 0int,
{
    if let ExprKind::Block(stmts, result) = e.kind {
        lemma_stmts(r, t, stmts@, g, h);
        if let Ok((_, x)) = stmts_code(t, stmts@, g) {
            let (_, y) = stmts_code(moved_tables(r, t), stmts@, h)->Ok_0;
            if let Some(last) = result {
                lemma_expr(r, t, *last, tail, x, y);
            }
        }
    }
}

proof fn lemma_stmts(
    r: Map<Seq<u8>, Seq<u8>>,
    t: TablesView,
    ss: Seq<Stmt>,
    g: Gen,
    h: Gen,
)
    requires
        moves_well(r, t),
        moved_gen(r, g, h),
    ensures
        alike(
            r,
            t,
            stmts_code(t, ss, g),
            stmts_code(moved_tables(r, t), ss, h),
        ),
    decreases ss, 0int, ss.len(),
{
    if ss.len() > 0 {
        let rest = ss.drop_last();
        lemma_stmts(r, t, rest, g, h);
        if let Ok((_, x)) = stmts_code(t, rest, g) {
            let (_, y) = stmts_code(moved_tables(r, t), rest, h)->Ok_0;
            lemma_stmt(r, t, ss.last(), x, y);
        }
    }
}

proof fn lemma_stmt(
    r: Map<Seq<u8>, Seq<u8>>,
    t: TablesView,
    s: Stmt,
    g: Gen,
    h: Gen,
)
    requires
        moves_well(r, t),
        moved_gen(r, g, h),
    ensures
        alike(
            r,
            t,
            stmt_code(t, s, g),
            stmt_code(moved_tables(r, t), s, h),
        ),
    decreases s, 1int, 0int,
{
    match s.kind {
        StmtKind::Let(b) => {
            lemma_expr(r, t, b.init, false, g, h);
        },
        StmtKind::Expr(e) => {
            lemma_expr(r, t, e, false, g, h);
        },
        StmtKind::Use(_) => {},
        StmtKind::Const(c) => {
            lemma_block_const(r, t, c, g, h);
        },
    }
}

proof fn lemma_closure_call(
    r: Map<Seq<u8>, Seq<u8>>,
    t: TablesView,
    e: Expr,
    tail: bool,
    g: Gen,
    h: Gen,
)
    requires
        moves_well(r, t),
        moved_gen(r, g, h),
    ensures
        alike(
            r,
            t,
            closure_call_code(t, e, g, tail),
            closure_call_code(moved_tables(r, t), e, h, tail),
        ),
    decreases e, 0int, 0int,
{
    if let ExprKind::Call(callee, args) = e.kind {
        lemma_expr(r, t, *callee, false, g, h);
        if let Ok((_, x)) = expr_code(t, *callee, g, false) {
            let (_, y) = expr_code(moved_tables(r, t), *callee, h, false)->Ok_0;
            lemma_exprs(r, t, args@, x, y);
        }
    }
}

proof fn lemma_call(
    r: Map<Seq<u8>, Seq<u8>>,
    t: TablesView,
    e: Expr,
    tail: bool,
    g: Gen,
    h: Gen,
)
    requires
        moves_well(r, t),
        moved_gen(r, g, h),
    ensures
        alike(
            r,
            t,
            call_code(t, e, g, tail),
            call_code(moved_tables(r, t), e, h, tail),
        ),
    decreases e, 1int, 0int,
{
    if let ExprKind::Call(callee, args) = e.kind {
        lemma_closure_call(r, t, e, tail, g, h);
        if let ExprKind::Name(n) = callee.kind {
            lemma_hash(r, t, name_key(n));
            if let Some(f) = function_hash(t, name_key(n)) {
                lemma_exprs(r, t, args@, g, h);
                if let Ok((_, x)) = exprs_code(t, args@, g) {
                    let (_, y) = exprs_code(moved_tables(r, t), args@, h)->Ok_0;
                    lemma_dicts(r, t, callee.dicts, callee.span, x, y);
                }
            } else if !is_variable(g.scope, n) && args@.len() == 1 {
                lemma_expr(r, t, args@[0], false, g, h);
            }
        }
    }
}

proof fn lemma_method_call(
    r: Map<Seq<u8>, Seq<u8>>,
    t: TablesView,
    e: Expr,
    tail: bool,
    g: Gen,
    h: Gen,
)
    requires
        moves_well(r, t),
        moved_gen(r, g, h),
    ensures
        alike(
            r,
            t,
            method_call_code(t, e, g, tail),
            method_call_code(moved_tables(r, t), e, h, tail),
        ),
    decreases e, 1int, 0int,
{
    let u = moved_tables(r, t);
    if let ExprKind::MethodCall { receiver, method, args, resolved_method } = e.kind {
        let (x, y) = match resolved_method {
            Some(ResolvedMethod::DictSlot { dict_index, slot }) => {
                lemma_load_dict(r, t, dict_index as nat, e.span, g, h);
                match dict_method_code(dict_index as nat, slot as nat, e.span, g) {
                    Ok((_, x)) => (
                        x,
                        dict_method_code(dict_index as nat, slot as nat, e.span, h)->Ok_0.1,
                    ),
                    Err(_) => (g, h),
                }
            },
            Some(ResolvedMethod::Symbol(symbol)) => {
                lemma_hash(r, t, KeyView::Bare(symbol@));
                (g, h)
            },
            None => (g, h),
        };
        lemma_expr(r, t, *receiver, false, x, y);
        if let Ok((_, x)) = expr_code(t, *receiver, x, false) {
            let (_, y) = expr_code(u, *receiver, y, false)->Ok_0;
            lemma_exprs(r, t, args@, x, y);
            if let Ok((_, x)) = exprs_code(t, args@, x) {
                let (_, y) = exprs_code(u, args@, y)->Ok_0;
                lemma_dicts(r, t, e.dicts, e.span, x, y);
            }
        }
    }
}

proof fn lemma_lambda(
    r: Map<Seq<u8>, Seq<u8>>,
    t: TablesView,
    e: Expr,
    g: Gen,
    h: Gen,
)
    requires
        moves_well(r, t),
        moved_gen(r, g, h),
    ensures
        alike(
            r,
            t,
            lambda_code(t, e, g),
            lambda_code(moved_tables(r, t), e, h),
        ),
    decreases e, 1int, 0int,
{
    let u = moved_tables(r, t);
    if let ExprKind::Lambda(l) = e.kind {
        lemma_params(closure_scope(g.scope), l.params@);
        if let Ok(scope) = with_params(closure_scope(g.scope), l.params@) {
            let x = Gen { scope, out: g.out };
            let y = Gen { scope, out: h.out };
            lemma_expr(r, t, *l.body, false, x, y);
            if let Ok((a, x)) = expr_code(t, *l.body, x, false) {
                let (b, y) = expr_code(u, *l.body, y, false)->Ok_0;
                let ends = Op::Plain(Opcode::Return);
                let params = l.params@.len() as u8;
                let hash = lambda_hash(x.out.counter);
                lemma_built(r, t, a.push(ends), b.push(ends), x.scope.next_local, params, hash);
                if let Ok(f) = built_under(a.push(ends), x.scope.next_local, params, hash) {
                    let f2 = built_under(b.push(ends), y.scope.next_local, params, hash)->Ok_0;
                    lemma_lambda_added(r, x.out, y.out, f, f2);
                    lemma_lambda_stays(r, t, counted(x.out).counter);
                    lemma_captures(r, t, g.scope, by_slot(x.scope.capture_names));
                }
            }
        }
    }
}

proof fn lemma_perform(
    r: Map<Seq<u8>, Seq<u8>>,
    t: TablesView,
    e: Expr,
    g: Gen,
    h: Gen,
)
    requires
        moves_well(r, t),
        moved_gen(r, g, h),
    ensures
        alike(
            r,
            t,
            perform_code(t, e, g),
            perform_code(moved_tables(r, t), e, h),
        ),
    decreases e, 1int, 0int,
{
    let u = moved_tables(r, t);
    if let ExprKind::Perform(c) = e.kind {
        lemma_exprs(r, t, c.args@, g, h);
        if let Ok((_, x)) = exprs_code(t, c.args@, g) {
            let (_, y) = exprs_code(u, c.args@, h)->Ok_0;
            lemma_dicts(r, t, e.dicts, c.span, x, y);
            if let Some(info) = ability_of(t, c.ability) {
                let unknown = unknown_method_text(c.method@, info.id);
                lemma_method_ref(r, t, info, c.method@, c.span, unknown);
            }
        }
    }
}

/// Whether the arms of a handler are the same but for the hashes that have
/// moved, or the same error.
pub open spec fn moved_table(
    r: Map<Seq<u8>, Seq<u8>>,
    t: TablesView,
    x: Result<ArmTable, ErrorView>,
    y: Result<ArmTable, ErrorView>,
) -> bool {
    match x {
        Err(e) => y == Err::<ArmTable, ErrorView>(e),
        Ok(a) => y matches Ok(b) && b.methods == moved_arms(r, a.methods) && a.captures
            == b.captures && moved_out(r, a.out, b.out) && forall|k: int|
            0 <= k < a.methods.len() ==> used(t, (#[trigger] a.methods[k]).1),
    }
}

/// Whether the handlers of a body are the same but for the hashes that have
/// moved, or the same error.
pub open spec fn moved_installed(
    r: Map<Seq<u8>, Seq<u8>>,
    t: TablesView,
    x: Result<Installed, ErrorView>,
    y: Result<Installed, ErrorView>,
) -> bool {
    match x {
        Err(e) => y == Err::<Installed, ErrorView>(e),
        Ok(a) => y matches Ok(b) && matching(r, t, a.code, b.code) && moved_gen(r, a.g, b.g)
            && a.count == b.count,
    }
}

proof fn lemma_arm_function(
    r: Map<Seq<u8>, Seq<u8>>,
    t: TablesView,
    outer: Scope,
    m: HandlerLiteralMethod,
    seed: Seq<(Seq<char>, u16)>,
    p: Produced,
    q: Produced,
)
    requires
        moves_well(r, t),
        all_values(outer.block_consts),
        moved_out(r, p, q),
    ensures
        match arm_function(t, outer, m, seed, p) {
            Err(e) => arm_function(moved_tables(r, t), outer, m, seed, q) == Err::<
                (FunctionView, Gen),
                ErrorView,
            >(e),
            Ok((f, g)) => arm_function(moved_tables(r, t), outer, m, seed, q) matches Ok((f2, h))
                && moved_body(r, f, f2) && moved_gen(r, g, h),
        },
    decreases m, 1int, 0int,
{
    if let Ok(s) = arm_scope(outer, seed) {
        lemma_arm_params(r, t, s, m.params@);
        if let Ok((pc, scope)) = arm_params(s, m.params@) {
            let x = Gen { scope, out: p };
            let y = Gen { scope, out: q };
            lemma_expr(r, t, m.body, false, x, y);
            if let Ok((a, x)) = expr_code(t, m.body, x, false) {
                let (b, _) = expr_code(moved_tables(r, t), m.body, y, false)->Ok_0;
                let ends = Op::Plain(Opcode::Return);
                let locals = x.scope.next_local;
                lemma_built(r, t, pc + a.push(ends), pc + b.push(ends), locals, 2, seq![]);
            }
        }
    }
}

proof fn lemma_arm_table(
    r: Map<Seq<u8>, Seq<u8>>,
    t: TablesView,
    outer: Scope,
    name: Seq<char>,
    info: AbilityView,
    ms: Seq<HandlerLiteralMethod>,
    which: Seq<int>,
    n: nat,
    p: Produced,
    q: Produced,
)
    requires
        moves_well(r, t),
        all_values(outer.block_consts),
        moved_out(r, p, q),
    ensures
        moved_table(
            r,
            t,
            arm_table(t, outer, name, info, ms, which, n, p),
            arm_table(moved_tables(r, t), outer, name, info, ms, which, n, q),
        ),
    decreases ms, 1int, n,
{
    let u = moved_tables(r, t);
    let x = arm_table(t, outer, name, info, ms, which, n, p);
    let y = arm_table(u, outer, name, info, ms, which, n, q);
    if n == 0 {
        assert(y->Ok_0.methods =~= moved_arms(r, x->Ok_0.methods));
    } else {
        let before = (n - 1) as nat;
        lemma_arm_table(r, t, outer, name, info, ms, which, before, p, q);
        if let Ok(a) = arm_table(t, outer, name, info, ms, which, before, p) {
            let b = arm_table(u, outer, name, info, ms, which, before, q)->Ok_0;
            if 0 <= which[n - 1] < ms.len() {
                let m = ms[which[n - 1]];
                lemma_method_ref(r, t, info, m.method@, m.span, unknown_arm_text(m.method@, name));
                lemma_arm_function(r, t, outer, m, a.captures, a.out, b.out);
                if let Ok(_) = method_ref(
                    t,
                    info,
                    m.method@,
                    m.span,
                    unknown_arm_text(m.method@, name),
                ) {
                    if let Ok((f, g)) = arm_function(t, outer, m, a.captures, a.out) {
                        let (f2, h) = arm_function(u, outer, m, b.captures, b.out)->Ok_0;
                        lemma_lambda_added(r, g.out, h.out, f, f2);
                        lemma_lambda_stays(r, t, g.out.counter);
                        assert(y->Ok_0.methods =~= moved_arms(r, x->Ok_0.methods));
                    }
                }
            }
        }
    }
}

proof fn lemma_handler_arms(
    r: Map<Seq<u8>, Seq<u8>>,
    t: TablesView,
    outer: Scope,
    id: AbilityId,
    ms: Seq<HandlerLiteralMethod>,
    which: Seq<int>,
    span: Span,
    p: Produced,
    q: Produced,
)
    requires
        moves_well(r, t),
        all_values(outer.block_consts),
        moved_out(r, p, q),
    ensures
        moved_table(
            r,
            t,
            handler_arms(t, outer, id, ms, which, span, p),
            handler_arms(moved_tables(r, t), outer, id, ms, which, span, q),
        ),
    decreases ms, 2int, 0int,
{
    if let Some((name, info)) = ability_by_id(t, id) {
        lemma_arm_table(r, t, outer, name, info, ms, which, which.len(), p, q);
    }
}

/// An instruction that makes a handler, with the hashes moved.
proof fn lemma_make_handler(
    r: Map<Seq<u8>, Seq<u8>>,
    t: TablesView,
    id: AbilityId,
    ms: Seq<(MethodView, Seq<u8>)>,
    n: u8,
)
    requires
        forall|k: int| 0 <= k < ms.len() ==> used(t, (#[trigger] ms[k]).1),
    ensures
        covered(t, Op::MakeHandler(id, ms, n)),
        moved_op(r, Op::MakeHandler(id, ms, n)) == Op::MakeHandler(id, moved_arms(r, ms), n),
{
    let op = Op::MakeHandler(id, ms, n);
    assert forall|k: int| 0 <= k < op_targets(op).len() implies used(
        t,
        #[trigger] op_targets(op)[k],
    ) by {
        assert(used(t, ms[k].1));
    }
}

proof fn lemma_handler_literal(
    r: Map<Seq<u8>, Seq<u8>>,
    t: TablesView,
    e: Expr,
    g: Gen,
    h: Gen,
)
    requires
        moves_well(r, t),
        moved_gen(r, g, h),
    ensures
        alike(r, t, handler_literal_code(t, e, g), handler_literal_code(moved_tables(r, t), e, h)),
    decreases e, 1int, 0int,
{
    if let ExprKind::HandlerLiteral(lit) = e.kind {
        if let Some(Type::Handler(id)) = e.ty {
            let ms = lit.methods@;
            let all = all_of(ms.len());
            lemma_handler_arms(r, t, g.scope, id, ms, all, e.span, g.out, h.out);
            if let Ok(a) = handler_arms(t, g.scope, id, ms, all, e.span, g.out) {
                lemma_captures(r, t, g.scope, a.captures);
                lemma_make_handler(r, t, id, a.methods, a.captures.len() as u8);
            }
        }
    }
}

proof fn lemma_groups(
    r: Map<Seq<u8>, Seq<u8>>,
    t: TablesView,
    outer: Scope,
    ms: Seq<HandlerLiteralMethod>,
    groups: Seq<(AbilityId, Seq<int>)>,
    n: nat,
    span: Span,
    a: Installed,
    b: Installed,
)
    requires
        moves_well(r, t),
        all_values(outer.block_consts),
        moved_installed(r, t, Ok(a), Ok(b)),
    ensures
        moved_installed(
            r,
            t,
            groups_code(t, outer, ms, groups, n, span, a),
            groups_code(moved_tables(r, t), outer, ms, groups, n, span, b),
        ),
    decreases ms, 3int, n,
{
    let u = moved_tables(r, t);
    if n > 0 {
        let before = (n - 1) as nat;
        lemma_groups(r, t, outer, ms, groups, before, span, a, b);
        if let Ok(c) = groups_code(t, outer, ms, groups, before, span, a) {
            let d = groups_code(u, outer, ms, groups, before, span, b)->Ok_0;
            let (id, which) = groups[n - 1];
            lemma_handler_arms(r, t, outer, id, ms, which, span, c.g.out, d.g.out);
            if let Ok(x) = handler_arms(t, outer, id, ms, which, span, c.g.out) {
                lemma_through(r, t, c.g.scope, x.captures);
                lemma_make_handler(r, t, id, x.methods, x.captures.len() as u8);
            }
        }
    }
}

proof fn lemma_handlers(
    r: Map<Seq<u8>, Seq<u8>>,
    t: TablesView,
    outer: Scope,
    hs: Seq<Expr>,
    n: nat,
    g: Gen,
    h: Gen,
)
    requires
        moves_well(r, t),
        all_values(outer.block_consts),
        moved_gen(r, g, h),
    ensures
        moved_installed(
            r,
            t,
            handlers_code(t, outer, hs, n, g),
            handlers_code(moved_tables(r, t), outer, hs, n, h),
        ),
    decreases hs, 0int, n,
{
    let u = moved_tables(r, t);
    if n > 0 && n <= hs.len() {
        let before = (n - 1) as nat;
        lemma_handlers(r, t, outer, hs, before, g, h);
        if let Ok(a) = handlers_code(t, outer, hs, before, g) {
            let b = handlers_code(u, outer, hs, before, h)->Ok_0;
            let e = hs[n - 1];
            match e.kind {
                ExprKind::HandlerLiteral(lit) => {
                    let ms = lit.methods@;
                    lemma_arm_groups(r, t, ms, ms.len() as int);
                    if let Ok(groups) = arm_groups(t, ms, ms.len() as int) {
                        lemma_groups(r, t, outer, ms, groups, groups.len(), e.span, a, b);
                    }
                },
                _ => {
                    lemma_expr(r, t, e, false, a.g, b.g);
                },
            }
        }
    }
}

proof fn lemma_else(
    r: Map<Seq<u8>, Seq<u8>>,
    t: TablesView,
    clause: Option<Box<Expr>>,
    g: Gen,
    h: Gen,
)
    requires
        moves_well(r, t),
        moved_gen(r, g, h),
    ensures
        alike(r, t, else_code(t, clause, g), else_code(moved_tables(r, t), clause, h)),
    decreases clause, 5int, 0int,
{
    if let Some(c) = clause {
        if let Ok(scope) = with_local(g.scope, 0, result_name()) {
            lemma_expr(r, t, *c, false, Gen { scope, ..g }, Gen { scope, ..h });
        }
    }
}

proof fn lemma_handle(
    r: Map<Seq<u8>, Seq<u8>>,
    t: TablesView,
    e: Expr,
    g: Gen,
    h: Gen,
)
    requires
        moves_well(r, t),
        moved_gen(r, g, h),
    ensures
        alike(r, t, handle_code(t, e, g), handle_code(moved_tables(r, t), e, h)),
    decreases e, 1int, 0int,
{
    let u = moved_tables(r, t);
    if let ExprKind::Handle(x) = e.kind {
        let hs = x.handlers@;
        let s = closure_scope(g.scope);
        let g0 = Gen { scope: s, out: g.out };
        let h0 = Gen { scope: s, out: h.out };
        lemma_handlers(r, t, g.scope, hs, hs.len(), g0, h0);
        if let Ok(i) = handlers_code(t, g.scope, hs, hs.len(), g0) {
            let j = handlers_code(u, h.scope, hs, hs.len(), h0)->Ok_0;
            lemma_expr(r, t, *x.body, false, i.g, j.g);
            if let Ok((ab, g1)) = expr_code(t, *x.body, i.g, false) {
                let (bb, h1) = expr_code(u, *x.body, j.g, false)->Ok_0;
                lemma_else(r, t, x.else_clause, g1, h1);
                if let Ok((ae, g2)) = else_code(t, x.else_clause, g1) {
                    let (be, h2) = else_code(u, x.else_clause, h1)->Ok_0;
                    let removes = Seq::new(i.count, |k: int| Op::Plain(Opcode::Unhandle));
                    let ends = Op::Plain(Opcode::Return);
                    assert(matching(r, t, removes, removes));
                    let a = i.code + ab + removes + ae.push(ends);
                    let b = j.code + bb + removes + be.push(ends);
                    assert(matching(r, t, a, b));
                    lemma_built(r, t, a, b, g2.scope.next_local, 0, seq![]);
                    if let Ok(f) = built(a, g2.scope.next_local, 0) {
                        let f2 = built(b, h2.scope.next_local, 0)->Ok_0;
                        lemma_lambda_added(r, g2.out, h2.out, f, f2);
                        lemma_lambda_stays(r, t, g2.out.counter);
                        lemma_captures(r, t, g.scope, by_slot(g2.scope.capture_names));
                    }
                }
            }
        }
    }
}

} // verus!
