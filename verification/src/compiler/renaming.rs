//! Compiling expressions in which a function has another name: the code is the
//! same.

use vstd::prelude::*;

use crate::ast::{
    name_key, ConstDef, DictMethod, DictSource, Dicts, Expr, ExprKind,
    HandlerLiteralMethod, MatchArm, Param, Pattern, PatternKind, QualifiedName, ResolvedMethod,
    Span, Stmt, StmtKind,
};
use crate::bytecode::FunctionView;
use crate::compiler::code::{Op, Opcode};
use crate::compiler::codegen::{
    all_of, arm_function, arm_groups, arm_params, arm_scope, arm_table, arms_code, binary_code,
    block_code, block_const_code, call_code, captures_code, closure_call_code, constant_of,
    continuation_name, else_code, expr_code, exprs_code, fields_code, groups_code, handle_code,
    handler_arms, handler_literal_code, handlers_code, if_code, is_variable, kind_code,
    lambda_code, local_code, match_code, method_call_code, method_ref, name_code, operands_code,
    perform_code, result_name, short_circuit_code, stmt_code, stmts_code, suspended_name,
    through_code, unknown_arm_text, unknown_method_text, with_params, ArmTable, Installed,
};
use crate::compiler::context::{
    ability_by_id, ability_of, assoc_get, assoc_set, by_slot, captured_name,
    closure_scope, counted, enclosing_names, function_hash, impl_symbol, insert_by_slot,
    is_parent_binding, is_parent_name, lambda_hash, name_of_slot, with_binding_capture,
    with_capture, with_lambda, with_local, AbilityView, Produced, Scope, TablesView,
};
use crate::compiler::dicts::{
    bounded_value_code, built, built_under, dict_code, dict_count, dict_method_code, dict_name,
    dicts_code, load_dict_code, slot_function, slots_code, sources_code, symbols_code, Code, Gen,
};
use crate::compiler::error::ErrorView;
use crate::compiler::patterns::pattern_code;
use crate::compiler::recompiling::lemma_assoc_value;
use crate::fqn::KeyView;
use crate::text::decimal_text;
use crate::types::{AbilityId, Type};

verus! {

// ── names ───────────────────────────────────────────────────────────────────

/// A function's old name and its new one.
pub struct Renaming {
    /// The key that the function had.
    pub from: KeyView,
    /// The key that it has now.
    pub to: KeyView,
    /// The name that it had.
    pub old_name: Seq<char>,
    /// The name that it has now.
    pub new_name: Seq<char>,
}

/// Whether a key is neither the old one nor the new one.
pub open spec fn avoids(d: Renaming, k: KeyView) -> bool {
    k != d.from && k != d.to
}

/// Whether a bare name is neither the old key nor the new one.
pub open spec fn avoids_name(d: Renaming, name: Seq<char>) -> bool {
    avoids(d, KeyView::Bare(name))
}

/// What a name becomes.
pub open spec fn renamed_text(d: Renaming, name: Seq<char>) -> Seq<char> {
    if name == d.old_name {
        d.new_name
    } else {
        name
    }
}

/// The name under which a binding without one is captured.
pub open spec fn nameless(id: u32) -> Seq<char> {
    "__binding_"@ + decimal_text(id as nat)
}

/// Whether neither key is a name that the compiler itself gives.
pub open spec fn ordinary(d: Renaming) -> bool {
    &&& avoids_name(d, "self"@)
    &&& forall|i: nat| avoids_name(d, #[trigger] dict_name(i))
    &&& avoids_name(d, continuation_name())
    &&& avoids_name(d, suspended_name())
    &&& avoids_name(d, result_name())
    &&& forall|id: u32| avoids_name(d, #[trigger] nameless(id))
    &&& forall|uuid: Seq<u8>, method: Seq<char>|
        avoids_name(d, #[trigger] impl_symbol(uuid, method))
}

/// Whether tables are others in which the function has its new key: any other key
/// means what it meant.
pub open spec fn renames(d: Renaming, t: TablesView, u: TablesView) -> bool {
    &&& ordinary(d)
    &&& u == (TablesView { function_hashes: u.function_hashes, ..t })
    &&& forall|k: KeyView|
        #![trigger function_hash(u, k)]
        avoids(d, k) ==> function_hash(u, k) == function_hash(t, k)
    &&& function_hash(t, d.from) is Some
    &&& function_hash(u, d.to) == function_hash(t, d.from)
    &&& !t.const_hashes.contains_key(d.from)
    &&& !t.const_hashes.contains_key(d.to)
    &&& !t.thunks.contains(d.from)
    &&& !t.thunks.contains(d.to)
}

// ── expressions ─────────────────────────────────────────────────────────────

/// Whether a name is another in which the function has its new key.
pub open spec fn renamed_ref(d: Renaming, m: QualifiedName, n: QualifiedName) -> bool {
    if name_key(m) == d.from {
        name_key(n) == d.to && n.bare() == m.bare()
    } else {
        n == m && name_key(m) != d.to
    }
}

/// Whether dictionaries are of methods other than the function.
pub open spec fn sources_avoid(d: Renaming, s: Seq<DictSource>) -> bool
    decreases s,
{
    forall|i: int| 0 <= i < s.len() ==> source_avoids(d, #[trigger] s[i])
}

/// Whether a dictionary is of methods other than the function.
pub open spec fn source_avoids(d: Renaming, s: DictSource) -> bool
    decreases s,
{
    match s {
        DictSource::Impl { symbols } => forall|i: int|
            0 <= i < symbols@.len() ==> avoids_name(d, (#[trigger] symbols@[i])@),
        DictSource::Param { dict_index } => true,
        DictSource::Generic { methods, inner } => (forall|i: int|
            0 <= i < methods@.len() ==> avoids_name(d, (#[trigger] methods@[i]).symbol@))
            && sources_avoid(d, inner@),
    }
}

/// Whether the dictionaries that a call supplies are of methods other than the
/// function.
pub open spec fn dicts_avoid(d: Renaming, dicts: Option<Dicts>) -> bool {
    match dicts {
        Some(Dicts::Resolved(sources)) => sources_avoid(d, sources@),
        _ => true,
    }
}

/// Whether a method call means a method other than the function.
pub open spec fn method_avoids(d: Renaming, r: Option<ResolvedMethod>) -> bool {
    match r {
        Some(ResolvedMethod::Symbol(s)) => avoids_name(d, s@),
        _ => true,
    }
}

/// Whether no parameter has a name that is one of the keys.
pub open spec fn params_avoid(d: Renaming, params: Seq<Param>) -> bool {
    forall|i: int| 0 <= i < params.len() ==> avoids_name(d, (#[trigger] params[i]).name@)
}

/// Whether a pattern binds no name that is one of the keys.
pub open spec fn pattern_avoids(d: Renaming, p: Pattern) -> bool
    decreases p,
{
    match p.kind {
        PatternKind::Binding(_, name) => avoids_name(d, name@),
        PatternKind::Variant(_, Some(sub)) => pattern_avoids(d, *sub),
        _ => true,
    }
}

/// Whether expressions are others in which the function has its new name.
pub open spec fn renamed_exprs(d: Renaming, s: Seq<Expr>, t: Seq<Expr>) -> bool
    decreases s,
{
    s.len() == t.len() && forall|i: int| 0 <= i < s.len() ==> renamed_expr(d, #[trigger] s[i], t[i])
}

/// Whether fields are others in which the function has its new name.
pub open spec fn renamed_fields(d: Renaming, s: Seq<(String, Expr)>, t: Seq<(String, Expr)>) -> bool
    decreases s,
{
    s.len() == t.len() && forall|i: int|
        0 <= i < s.len() ==> (#[trigger] s[i]).0 == t[i].0 && renamed_expr(d, s[i].1, t[i].1)
}

/// Whether arms are others in which the function has its new name.
pub open spec fn renamed_arms(d: Renaming, s: Seq<MatchArm>, t: Seq<MatchArm>) -> bool
    decreases s,
{
    s.len() == t.len() && forall|i: int|
        0 <= i < s.len() ==> (#[trigger] s[i]).pattern == t[i].pattern && pattern_avoids(
            d,
            s[i].pattern,
        ) && (match s[i].guard {
            Some(c) => t[i].guard matches Some(e) && renamed_expr(d, c, e),
            None => t[i].guard is None,
        }) && renamed_expr(d, s[i].body, t[i].body)
}

/// Whether statements are others in which the function has its new name.
pub open spec fn renamed_stmts(d: Renaming, s: Seq<Stmt>, t: Seq<Stmt>) -> bool
    decreases s,
{
    s.len() == t.len() && forall|i: int| 0 <= i < s.len() ==> renamed_stmt(d, #[trigger] s[i], t[i])
}

/// Whether a statement is another in which the function has its new name.
pub open spec fn renamed_stmt(d: Renaming, s: Stmt, t: Stmt) -> bool
    decreases s,
{
    match s.kind {
        StmtKind::Let(b) => t.kind matches StmtKind::Let(c) && c.id == b.id && c.name == b.name
            && avoids_name(d, b.name@) && renamed_expr(d, b.init, c.init),
        StmtKind::Expr(e) => t.kind matches StmtKind::Expr(f) && renamed_expr(d, e, f),
        StmtKind::Use(_) => t.kind is Use,
        StmtKind::Const(c) => t.kind matches StmtKind::Const(x) && x == c && avoids_name(
            d,
            c.name@,
        ),
    }
}

/// Whether the methods of a handler are others in which the function has its new
/// name.
pub open spec fn renamed_methods(
    d: Renaming,
    s: Seq<HandlerLiteralMethod>,
    t: Seq<HandlerLiteralMethod>,
) -> bool
    decreases s,
{
    s.len() == t.len() && forall|i: int|
        0 <= i < s.len() ==> renamed_method(d, #[trigger] s[i], t[i])
}

/// Whether a method of a handler is another in which the function has its new name.
pub open spec fn renamed_method(
    d: Renaming,
    m: HandlerLiteralMethod,
    n: HandlerLiteralMethod,
) -> bool
    decreases m,
{
    &&& n.ability == m.ability
    &&& n.method == m.method
    &&& n.params == m.params
    &&& n.span == m.span
    &&& params_avoid(d, m.params@)
    &&& renamed_expr(d, m.body, n.body)
}

/// Whether an expression is another in which the function has its new name.
pub open spec fn renamed_expr(d: Renaming, a: Expr, b: Expr) -> bool
    decreases a,
{
    &&& b.span == a.span
    &&& b.ty == a.ty
    &&& b.dicts == a.dicts
    &&& dicts_avoid(d, a.dicts)
    &&& renamed_kind(d, a.kind, b.kind)
}

/// Whether an expression's kind is another in which the function has its new name.
pub open spec fn renamed_kind(d: Renaming, a: ExprKind, b: ExprKind) -> bool
    decreases a,
{
    match a {
        ExprKind::Name(m) => b matches ExprKind::Name(n) && renamed_ref(d, m, n),
        ExprKind::Tuple(s) => b matches ExprKind::Tuple(t) && renamed_exprs(d, s@, t@),
        ExprKind::TupleIndex(x, i) => b matches ExprKind::TupleIndex(y, j) && j == i
            && renamed_expr(d, *x, *y),
        ExprKind::Record(s) => b matches ExprKind::Record(t) && renamed_fields(d, s@, t@),
        ExprKind::TypedRecord { name, fields: s } => b matches ExprKind::TypedRecord {
            name: _,
            fields: t,
        } && renamed_fields(d, s@, t@),
        ExprKind::RecordField(x, f) => b matches ExprKind::RecordField(y, g) && g == f
            && renamed_expr(d, *x, *y),
        ExprKind::List(s) => b matches ExprKind::List(t) && renamed_exprs(d, s@, t@),
        ExprKind::Binary { op, left, right, resolved_op } => b matches ExprKind::Binary {
            op: op2,
            left: left2,
            right: right2,
            resolved_op: resolved2,
        } && op2 == op && resolved2 == resolved_op && method_avoids(d, resolved_op)
            && renamed_expr(d, *left, *left2) && renamed_expr(d, *right, *right2),
        ExprKind::Unary(op, x) => b matches ExprKind::Unary(op2, y) && op2 == op && renamed_expr(
            d,
            *x,
            *y,
        ),
        ExprKind::If(c, y, n) => b matches ExprKind::If(c2, y2, n2) && renamed_expr(d, *c, *c2)
            && renamed_expr(d, *y, *y2) && match n {
            Some(x) => n2 matches Some(z) && renamed_expr(d, *x, *z),
            None => n2 is None,
        },
        ExprKind::Match(v, s) => b matches ExprKind::Match(w, t) && renamed_expr(d, *v, *w)
            && renamed_arms(d, s@, t@),
        ExprKind::Block(s, r) => b matches ExprKind::Block(t, q) && renamed_stmts(d, s@, t@)
            && match r {
            Some(x) => q matches Some(z) && renamed_expr(d, *x, *z),
            None => q is None,
        },
        ExprKind::Lambda(l) => b matches ExprKind::Lambda(k) && k.params == l.params
            && params_avoid(d, l.params@) && renamed_expr(d, *l.body, *k.body),
        ExprKind::Call(c, s) => b matches ExprKind::Call(c2, t) && renamed_expr(d, *c, *c2)
            && renamed_exprs(d, s@, t@),
        ExprKind::Perform(c) => b matches ExprKind::Perform(e) && e.ability == c.ability && e.method
            == c.method && e.span == c.span && renamed_exprs(d, c.args@, e.args@),
        ExprKind::Handle(x) => b matches ExprKind::Handle(y) && renamed_exprs(
            d,
            x.handlers@,
            y.handlers@,
        ) && renamed_expr(d, *x.body, *y.body) && match x.else_clause {
            Some(c) => y.else_clause matches Some(e) && renamed_expr(d, *c, *e),
            None => y.else_clause is None,
        },
        ExprKind::Resume(x) => b matches ExprKind::Resume(y) && renamed_expr(d, *x, *y),
        ExprKind::HandlerLiteral(l) => b matches ExprKind::HandlerLiteral(k) && renamed_methods(
            d,
            l.methods@,
            k.methods@,
        ),
        ExprKind::Sandbox(x) => b matches ExprKind::Sandbox(y) && renamed_expr(d, *x.body, *y.body),
        ExprKind::MethodCall { receiver, method, args, resolved_method } => b matches
            ExprKind::MethodCall {
            receiver: receiver2,
            method: _,
            args: args2,
            resolved_method: resolved2,
        } && resolved2 == resolved_method && method_avoids(d, resolved_method) && renamed_expr(
            d,
            *receiver,
            *receiver2,
        ) && renamed_exprs(d, args@, args2@),
        _ => b == a,
    }
}

// ── what is produced ────────────────────────────────────────────────────────

/// What was produced, with the new name of the function that it stands in.
pub open spec fn renamed_out(d: Renaming, p: Produced) -> Produced {
    Produced {
        lambdas: Seq::new(
            p.lambdas.len(),
            |i: int| (p.lambdas[i].0, renamed_text(d, p.lambdas[i].1), p.lambdas[i].2),
        ),
        current: renamed_text(d, p.current),
        ..p
    }
}

/// What was reached, with the new name of the function.
pub open spec fn renamed_gen(d: Renaming, g: Gen) -> Gen {
    Gen { out: renamed_out(d, g.out), ..g }
}

/// Whether no entry has a name that is one of the keys.
pub open spec fn pairs_avoid<B>(d: Renaming, s: Seq<(Seq<char>, B)>) -> bool {
    forall|i: int| 0 <= i < s.len() ==> avoids_name(d, (#[trigger] s[i]).0)
}

/// Whether nothing in scope has a name that is one of the keys.
pub open spec fn scope_avoids(d: Renaming, s: Scope) -> bool {
    &&& pairs_avoid(d, s.local_names)
    &&& pairs_avoid(d, s.capture_names)
    &&& s.parent_local_names matches Some(p) ==> pairs_avoid(d, p)
    &&& forall|i: int| 0 <= i < s.outer_names.len() ==> avoids_name(d, #[trigger] s.outer_names[i])
    &&& pairs_avoid(d, s.block_consts)
}

/// Whether code is the same, and what is reached behind it but for the name of the
/// function; or the same error.
pub open spec fn commutes(d: Renaming, x: Code, y: Code) -> bool {
    match x {
        Err(e) => y == Code::Err(e),
        Ok((c, g)) => y == Code::Ok((c, renamed_gen(d, g))) && scope_avoids(d, g.scope),
    }
}

/// One more lambda.
proof fn lemma_lambda_added(d: Renaming, p: Produced, f: FunctionView)
    ensures
        with_lambda(renamed_out(d, p), f) == renamed_out(d, with_lambda(p, f)),
        with_lambda(counted(renamed_out(d, p)), f) == renamed_out(d, with_lambda(counted(p), f)),
{
    assert(with_lambda(renamed_out(d, p), f).lambdas =~= renamed_out(
        d,
        with_lambda(p, f),
    ).lambdas);
    assert(with_lambda(counted(renamed_out(d, p)), f).lambdas =~= renamed_out(
        d,
        with_lambda(counted(p), f),
    ).lambdas);
}

// ── scopes ──────────────────────────────────────────────────────────────────

proof fn lemma_not_found<B>(d: Renaming, s: Seq<(Seq<char>, B)>, name: Seq<char>)
    requires
        pairs_avoid(d, s),
    ensures
        assoc_get(s, name) is Some ==> avoids_name(d, name),
{
    lemma_assoc_value(s, name);
    if assoc_get(s, name) is Some {
        let i = choose|i: int| 0 <= i < s.len() && #[trigger] s[i] == (name, assoc_get(s, name)->0);
        assert(avoids_name(d, s[i].0));
    }
}

pub(crate) proof fn lemma_set<B>(d: Renaming, s: Seq<(Seq<char>, B)>, name: Seq<char>, v: B)
    requires
        pairs_avoid(d, s),
        avoids_name(d, name),
    ensures
        pairs_avoid(d, assoc_set(s, name, v)),
{
    lemma_assoc_value(s, name);
    let t = assoc_set(s, name, v);
    assert forall|i: int| 0 <= i < t.len() implies avoids_name(d, (#[trigger] t[i]).0) by {
        if i < s.len() {
            assert(avoids_name(d, s[i].0));
        }
    }
}

/// What is in scope is neither key.
proof fn lemma_in_scope(d: Renaming, s: Scope, name: Seq<char>)
    requires
        scope_avoids(d, s),
        assoc_get(s.local_names, name) is Some || assoc_get(s.capture_names, name) is Some
            || is_parent_name(s, name) || assoc_get(s.block_consts, name) is Some,
    ensures
        avoids_name(d, name),
{
    lemma_not_found(d, s.local_names, name);
    lemma_not_found(d, s.capture_names, name);
    lemma_not_found(d, s.block_consts, name);
    if let Some(p) = s.parent_local_names {
        lemma_not_found(d, p, name);
        if s.outer_names.contains(name) {
            assert(avoids_name(d, s.outer_names[s.outer_names.index_of(name)]));
        }
    }
}

pub(crate) proof fn lemma_with_local(d: Renaming, s: Scope, id: u32, name: Seq<char>)
    requires
        scope_avoids(d, s),
        avoids_name(d, name),
    ensures
        with_local(s, id, name) matches Ok(now) ==> scope_avoids(d, now),
{
    lemma_set(d, s.local_names, name, s.next_local);
}

proof fn lemma_with_capture(d: Renaming, s: Scope, name: Seq<char>)
    requires
        scope_avoids(d, s),
        avoids_name(d, name),
    ensures
        scope_avoids(d, with_capture(s, name)),
{
    lemma_set(d, s.capture_names, name, s.capture_names.len() as u16);
}

proof fn lemma_name_of_slot(d: Renaming, names: Seq<(Seq<char>, u16)>, slot: u16)
    requires
        pairs_avoid(d, names),
    ensures
        name_of_slot(names, slot) matches Some(n) ==> avoids_name(d, n),
    decreases names.len(),
{
    if names.len() > 0 {
        let rest = names.drop_last();
        assert(forall|i: int| 0 <= i < rest.len() ==> #[trigger] rest[i] == names[i]);
        assert(avoids_name(d, names[names.len() - 1].0));
        lemma_name_of_slot(d, rest, slot);
    }
}

proof fn lemma_local(d: Renaming, id: u32, span: Span, g: Gen)
    requires
        ordinary(d),
        scope_avoids(d, g.scope),
    ensures
        commutes(d, local_code(id, span, g), local_code(id, span, renamed_gen(d, g))),
{
    let s = g.scope;
    if assoc_get(s.captures, id) is None && is_parent_binding(s, id) {
        let name = captured_name(s, id);
        assert(avoids_name(d, name)) by {
            assert(avoids_name(d, nameless(id)));
            if let Some(names) = s.parent_local_names {
                if let Some(p) = s.parent_locals {
                    if let Some(slot) = assoc_get(p, id) {
                        lemma_name_of_slot(d, names, slot);
                    }
                }
            }
        }
        lemma_set(d, s.capture_names, name, s.captures.len() as u16);
        assert(scope_avoids(d, with_binding_capture(s, id, name)));
    }
}

proof fn lemma_closure_scope(d: Renaming, s: Scope)
    requires
        scope_avoids(d, s),
    ensures
        scope_avoids(d, closure_scope(s)),
{
    let names = enclosing_names(s);
    assert forall|i: int| 0 <= i < names.len() implies avoids_name(d, #[trigger] names[i]) by {
        if i < s.outer_names.len() {
            assert(avoids_name(d, s.outer_names[i]));
        } else {
            let p = s.parent_local_names->0;
            assert(names[i] == p[i - s.outer_names.len()].0);
        }
    }
}

proof fn lemma_captures(d: Renaming, s: Scope, caps: Seq<(Seq<char>, u16)>)
    requires
        scope_avoids(d, s),
    ensures
        captures_code(s, caps) matches Ok((_, now)) ==> scope_avoids(d, now),
    decreases caps.len(),
{
    if caps.len() > 0 {
        let rest = caps.drop_last();
        lemma_captures(d, s, rest);
        if let Ok((_, now)) = captures_code(s, rest) {
            let name = caps.last().0;
            if assoc_get(now.local_names, name) is None && (assoc_get(now.capture_names, name)
                is Some || is_parent_name(now, name)) {
                lemma_in_scope(d, now, name);
                lemma_with_capture(d, now, name);
            }
        }
    }
}

proof fn lemma_through(d: Renaming, s: Scope, caps: Seq<(Seq<char>, u16)>)
    requires
        scope_avoids(d, s),
        pairs_avoid(d, caps),
    ensures
        scope_avoids(d, through_code(s, caps).1),
    decreases caps.len(),
{
    if caps.len() > 0 {
        let rest = caps.drop_last();
        assert(forall|i: int| 0 <= i < rest.len() ==> #[trigger] rest[i] == caps[i]);
        assert(avoids_name(d, caps[caps.len() - 1].0));
        lemma_through(d, s, rest);
        lemma_with_capture(d, through_code(s, rest).1, caps.last().0);
    }
}

proof fn lemma_insert_by_slot(d: Renaming, s: Seq<(Seq<char>, u16)>, x: (Seq<char>, u16))
    requires
        pairs_avoid(d, s),
        avoids_name(d, x.0),
    ensures
        pairs_avoid(d, insert_by_slot(s, x)),
    decreases s.len(),
{
    if s.len() > 0 && x.1 < s.last().1 {
        let rest = s.drop_last();
        assert(forall|i: int| 0 <= i < rest.len() ==> #[trigger] rest[i] == s[i]);
        assert(avoids_name(d, s[s.len() - 1].0));
        lemma_insert_by_slot(d, rest, x);
    }
}

proof fn lemma_by_slot(d: Renaming, s: Seq<(Seq<char>, u16)>)
    requires
        pairs_avoid(d, s),
    ensures
        pairs_avoid(d, by_slot(s)),
    decreases s.len(),
{
    if s.len() > 0 {
        let rest = s.drop_last();
        assert(forall|i: int| 0 <= i < rest.len() ==> #[trigger] rest[i] == s[i]);
        assert(avoids_name(d, s[s.len() - 1].0));
        lemma_by_slot(d, rest);
        lemma_insert_by_slot(d, by_slot(rest), s.last());
    }
}

pub(crate) proof fn lemma_params(d: Renaming, s: Scope, params: Seq<Param>)
    requires
        scope_avoids(d, s),
        params_avoid(d, params),
    ensures
        with_params(s, params) matches Ok(now) ==> scope_avoids(d, now),
    decreases params.len(),
{
    if params.len() > 0 {
        let rest = params.drop_last();
        assert(forall|i: int| 0 <= i < rest.len() ==> #[trigger] rest[i] == params[i]);
        assert(avoids_name(d, params[params.len() - 1].name@));
        lemma_params(d, s, rest);
        if let Ok(before) = with_params(s, rest) {
            lemma_with_local(d, before, params.last().id, params.last().name@);
        }
    }
}

proof fn lemma_arm_params(d: Renaming, s: Scope, params: Seq<Param>)
    requires
        scope_avoids(d, s),
        params_avoid(d, params),
    ensures
        arm_params(s, params) matches Ok((_, now)) ==> scope_avoids(d, now),
    decreases params.len(),
{
    if params.len() > 0 {
        let rest = params.drop_last();
        assert(forall|i: int| 0 <= i < rest.len() ==> #[trigger] rest[i] == params[i]);
        assert(avoids_name(d, params[params.len() - 1].name@));
        lemma_arm_params(d, s, rest);
        if let Ok((_, before)) = arm_params(s, rest) {
            lemma_with_local(d, before, params.last().id, params.last().name@);
        }
    }
}

proof fn lemma_arm_scope(d: Renaming, outer: Scope, seed: Seq<(Seq<char>, u16)>)
    requires
        ordinary(d),
        scope_avoids(d, outer),
        pairs_avoid(d, seed),
    ensures
        arm_scope(outer, seed) matches Ok(s) ==> scope_avoids(d, s),
{
    lemma_closure_scope(d, outer);
    let s = Scope { capture_names: seed, ..closure_scope(outer) };
    lemma_with_local(d, s, 0, continuation_name());
    if let Ok(one) = with_local(s, 0, continuation_name()) {
        lemma_with_local(d, one, 0, suspended_name());
    }
}

proof fn lemma_pattern(
    d: Renaming,
    t: TablesView,
    u: TablesView,
    p: Pattern,
    is_last: bool,
    s: Scope,
)
    requires
        renames(d, t, u),
        scope_avoids(d, s),
        pattern_avoids(d, p),
    ensures
        pattern_code(u, p, is_last, s) == pattern_code(t, p, is_last, s),
        pattern_code(t, p, is_last, s) matches Ok(c) ==> scope_avoids(d, c.scope),
    decreases p,
{
    match p.kind {
        PatternKind::Binding(id, name) => {
            lemma_with_local(d, s, id, name@);
        },
        PatternKind::Variant(_, Some(sub)) => {
            lemma_pattern(d, t, u, *sub, true, s);
        },
        _ => {},
    }
}

// ── dictionaries ────────────────────────────────────────────────────────────

proof fn lemma_load_dict(d: Renaming, index: nat, span: Span, g: Gen)
    requires
        scope_avoids(d, g.scope),
    ensures
        commutes(d, load_dict_code(index, span, g), load_dict_code(index, span, renamed_gen(d, g))),
{
    let name = dict_name(index);
    let s = g.scope;
    if assoc_get(s.local_names, name) is None && (assoc_get(s.capture_names, name) is Some
        || is_parent_name(s, name)) {
        lemma_in_scope(d, s, name);
        lemma_with_capture(d, s, name);
    }
}

proof fn lemma_symbols(
    d: Renaming,
    t: TablesView,
    u: TablesView,
    symbols: Seq<String>,
    span: Span,
)
    requires
        renames(d, t, u),
        forall|i: int| 0 <= i < symbols.len() ==> avoids_name(d, (#[trigger] symbols[i])@),
    ensures
        symbols_code(u, symbols, span) == symbols_code(t, symbols, span),
    decreases symbols.len(),
{
    if symbols.len() > 0 {
        let rest = symbols.drop_last();
        assert(forall|i: int| 0 <= i < rest.len() ==> #[trigger] rest[i] == symbols[i]);
        assert(avoids_name(d, symbols[symbols.len() - 1]@));
        lemma_symbols(d, t, u, rest, span);
    }
}

proof fn lemma_dict(
    d: Renaming,
    t: TablesView,
    u: TablesView,
    source: DictSource,
    span: Span,
    g: Gen,
)
    requires
        renames(d, t, u),
        scope_avoids(d, g.scope),
        source_avoids(d, source),
    ensures
        commutes(d, dict_code(t, source, span, g), dict_code(u, source, span, renamed_gen(d, g))),
    decreases source, 1int, 0int,
{
    match source {
        DictSource::Impl { symbols } => {
            lemma_symbols(d, t, u, symbols@, span);
        },
        DictSource::Param { dict_index } => {
            lemma_load_dict(d, dict_index as nat, span, g);
        },
        DictSource::Generic { methods, inner } => {
            lemma_slots(d, t, u, methods@, inner@, methods@.len(), span, g);
        },
    }
}

proof fn lemma_sources(
    d: Renaming,
    t: TablesView,
    u: TablesView,
    sources: Seq<DictSource>,
    span: Span,
    g: Gen,
)
    requires
        renames(d, t, u),
        scope_avoids(d, g.scope),
        sources_avoid(d, sources),
    ensures
        commutes(
            d,
            sources_code(t, sources, span, g),
            sources_code(u, sources, span, renamed_gen(d, g)),
        ),
    decreases sources, 0int, sources.len(),
{
    if sources.len() > 0 {
        let rest = sources.drop_last();
        assert(forall|i: int| 0 <= i < rest.len() ==> #[trigger] rest[i] == sources[i]);
        assert(source_avoids(d, sources[sources.len() - 1]));
        lemma_sources(d, t, u, rest, span, g);
        if let Ok((_, x)) = sources_code(t, rest, span, g) {
            lemma_dict(d, t, u, sources.last(), span, x);
        }
    }
}

proof fn lemma_slots(
    d: Renaming,
    t: TablesView,
    u: TablesView,
    methods: Seq<DictMethod>,
    inner: Seq<DictSource>,
    k: nat,
    span: Span,
    g: Gen,
)
    requires
        renames(d, t, u),
        scope_avoids(d, g.scope),
        k <= methods.len(),
        forall|i: int| 0 <= i < methods.len() ==> avoids_name(d, (#[trigger] methods[i]).symbol@),
        sources_avoid(d, inner),
    ensures
        commutes(
            d,
            slots_code(t, methods, inner, k, span, g),
            slots_code(u, methods, inner, k, span, renamed_gen(d, g)),
        ),
    decreases inner, 1int, k,
{
    if k > 0 {
        let m = methods[k - 1];
        let before = (k - 1) as nat;
        lemma_slots(d, t, u, methods, inner, before, span, g);
        if let Ok((_, x)) = slots_code(t, methods, inner, before, span, g) {
            assert(avoids_name(d, methods[k - 1].symbol@));
            if let Some(hash) = function_hash(t, KeyView::Bare(m.symbol@)) {
                let own = m.method_dict_count as nat;
                if let Ok(f) = slot_function(hash, m.arity as nat, inner.len(), own) {
                    lemma_lambda_added(d, x.out, f);
                    lemma_sources(
                        d,
                        t,
                        u,
                        inner,
                        span,
                        Gen { out: with_lambda(x.out, f), ..x },
                    );
                }
            }
        }
    }
}

proof fn lemma_dicts(
    d: Renaming,
    t: TablesView,
    u: TablesView,
    dicts: Option<Dicts>,
    span: Span,
    g: Gen,
)
    requires
        renames(d, t, u),
        scope_avoids(d, g.scope),
        dicts_avoid(d, dicts),
    ensures
        commutes(d, dicts_code(t, dicts, span, g), dicts_code(u, dicts, span, renamed_gen(d, g))),
{
    if let Some(Dicts::Resolved(sources)) = dicts {
        lemma_sources(d, t, u, sources@, span, g);
    }
}

proof fn lemma_bounded_value(
    d: Renaming,
    t: TablesView,
    u: TablesView,
    function: Seq<u8>,
    ty: Option<Type>,
    sources: Seq<DictSource>,
    span: Span,
    g: Gen,
)
    requires
        renames(d, t, u),
        scope_avoids(d, g.scope),
        sources_avoid(d, sources),
    ensures
        commutes(
            d,
            bounded_value_code(t, function, ty, sources, span, g),
            bounded_value_code(u, function, ty, sources, span, renamed_gen(d, g)),
        ),
{
    if let Some(Type::Function(params, _)) = ty {
        if let Ok(f) = slot_function(function, params@.len(), sources.len(), 0) {
            lemma_lambda_added(d, g.out, f);
            lemma_sources(d, t, u, sources, span, Gen { out: with_lambda(g.out, f), ..g });
        }
    }
}

// ── expressions ─────────────────────────────────────────────────────────────

/// A renamed name means the function, and nothing else is in its way.
proof fn lemma_ref(
    d: Renaming,
    t: TablesView,
    u: TablesView,
    m: QualifiedName,
    n: QualifiedName,
    s: Scope,
)
    requires
        renames(d, t, u),
        renamed_ref(d, m, n),
        scope_avoids(d, s),
    ensures
        function_hash(u, name_key(n)) == function_hash(t, name_key(m)),
        is_variable(s, n) == is_variable(s, m),
        constant_of(u, s, n) == constant_of(t, s, m),
        t.thunks.contains(name_key(n)) == t.thunks.contains(name_key(m)),
        name_key(m) == d.from ==> !is_variable(s, m) && constant_of(t, s, m) is None,
        name_key(m) != d.from ==> m == n,
{
    if name_key(m) == d.from {
        if m.bare() {
            assert(name_key(m) == KeyView::Bare(m.name@));
            assert(name_key(n) == KeyView::Bare(n.name@));
            if is_variable(s, m) || assoc_get(s.block_consts, m.name@) is Some {
                lemma_in_scope(d, s, m.name@);
            }
            if is_variable(s, n) || assoc_get(s.block_consts, n.name@) is Some {
                lemma_in_scope(d, s, n.name@);
            }
        }
    } else {
        assert(avoids(d, name_key(m)));
    }
}

proof fn lemma_name(
    d: Renaming,
    t: TablesView,
    u: TablesView,
    a: Expr,
    b: Expr,
    g: Gen,
)
    requires
        renames(d, t, u),
        renamed_expr(d, a, b),
        scope_avoids(d, g.scope),
    ensures
        a.kind matches ExprKind::Name(m) ==> (b.kind matches ExprKind::Name(n) && commutes(
            d,
            name_code(t, a, m, g),
            name_code(u, b, n, renamed_gen(d, g)),
        )),
{
    assert(renamed_kind(d, a.kind, b.kind));
    if let ExprKind::Name(m) = a.kind {
        let n = b.kind->Name_0;
        lemma_ref(d, t, u, m, n, g.scope);
        if is_variable(g.scope, m) {
            lemma_in_scope(d, g.scope, m.name@);
            lemma_with_capture(d, g.scope, m.name@);
        } else if constant_of(t, g.scope, m) is None {
            if let Some(f) = function_hash(t, name_key(m)) {
                if dict_count(a.dicts) > 0 {
                    lemma_bounded_value(d, t, u, f, a.ty, a.dicts->0->Resolved_0@, a.span, g);
                } else {
                    lemma_dicts(d, t, u, a.dicts, a.span, g);
                }
            }
        }
    }
}

pub(crate) proof fn lemma_expr(
    d: Renaming,
    t: TablesView,
    u: TablesView,
    a: Expr,
    b: Expr,
    tail: bool,
    g: Gen,
)
    requires
        renames(d, t, u),
        renamed_expr(d, a, b),
        scope_avoids(d, g.scope),
    ensures
        commutes(d, expr_code(t, a, g, tail), expr_code(u, b, renamed_gen(d, g), tail)),
    decreases a, 3int, 0int,
{
    lemma_kind(d, t, u, a, b, tail, g);
}

/// The code of an expression with parts of one sort.
proof fn lemma_simple(
    d: Renaming,
    t: TablesView,
    u: TablesView,
    a: Expr,
    b: Expr,
    tail: bool,
    g: Gen,
)
    requires
        renames(d, t, u),
        renamed_expr(d, a, b),
        scope_avoids(d, g.scope),
        a.kind is Tuple || a.kind is TupleIndex || a.kind is Record || a.kind is TypedRecord
            || a.kind is RecordField || a.kind is List || a.kind is Unary || a.kind is Resume
            || a.kind is Sandbox,
    ensures
        commutes(d, kind_code(t, a, g, tail), kind_code(u, b, renamed_gen(d, g), tail)),
    decreases a, 1int, 0int,
{
    assert(renamed_kind(d, a.kind, b.kind));
    match a.kind {
        ExprKind::Tuple(es) => {
            lemma_exprs(d, t, u, es@, b.kind->Tuple_0@, g);
        },
        ExprKind::TupleIndex(x, _) => {
            lemma_expr(d, t, u, *x, *b.kind->TupleIndex_0, false, g);
        },
        ExprKind::Record(fields) => {
            lemma_fields(d, t, u, fields@, b.kind->Record_0@, g);
        },
        ExprKind::TypedRecord { name, fields } => {
            lemma_fields(d, t, u, fields@, b.kind->TypedRecord_fields@, g);
        },
        ExprKind::RecordField(x, _) => {
            lemma_expr(d, t, u, *x, *b.kind->RecordField_0, false, g);
        },
        ExprKind::List(es) => {
            lemma_exprs(d, t, u, es@, b.kind->List_0@, g);
        },
        ExprKind::Unary(_, x) => {
            lemma_expr(d, t, u, *x, *b.kind->Unary_1, false, g);
        },
        ExprKind::Resume(x) => {
            lemma_expr(d, t, u, *x, *b.kind->Resume_0, false, g);
        },
        ExprKind::Sandbox(x) => {
            lemma_expr(d, t, u, *x.body, *b.kind->Sandbox_0.body, tail, g);
        },
        _ => {},
    }
}

proof fn lemma_kind(
    d: Renaming,
    t: TablesView,
    u: TablesView,
    a: Expr,
    b: Expr,
    tail: bool,
    g: Gen,
)
    requires
        renames(d, t, u),
        renamed_expr(d, a, b),
        scope_avoids(d, g.scope),
    ensures
        commutes(d, kind_code(t, a, g, tail), kind_code(u, b, renamed_gen(d, g), tail)),
    decreases a, 2int, 0int,
{
    assert(renamed_kind(d, a.kind, b.kind));
    match a.kind {
        ExprKind::Unit => {},
        ExprKind::Bool(_) => {},
        ExprKind::Number(_) => {},
        ExprKind::String(_) => {},
        ExprKind::Local(id) => {
            lemma_local(d, id, a.span, g);
        },
        ExprKind::Name(_) => {
            lemma_name(d, t, u, a, b, g);
        },
        ExprKind::Binary { op, left, right, resolved_op } => {
            lemma_binary(d, t, u, a, b, tail, g);
        },
        ExprKind::If(_, _, _) => {
            lemma_if(d, t, u, a, b, tail, g);
        },
        ExprKind::Match(_, _) => {
            lemma_match(d, t, u, a, b, tail, g);
        },
        ExprKind::Block(_, _) => {
            lemma_block(d, t, u, a, b, tail, g);
        },
        ExprKind::Lambda(_) => {
            lemma_lambda(d, t, u, a, b, g);
        },
        ExprKind::Call(_, _) => {
            lemma_call(d, t, u, a, b, tail, g);
        },
        ExprKind::Perform(_) => {
            lemma_perform(d, t, u, a, b, g);
        },
        ExprKind::Handle(_) => {
            lemma_handle(d, t, u, a, b, g);
        },
        ExprKind::HandlerLiteral(_) => {
            lemma_handler_literal(d, t, u, a, b, g);
        },
        ExprKind::MethodCall { receiver, method, args, resolved_method } => {
            lemma_method_call(d, t, u, a, b, tail, g);
        },
        _ => {
            lemma_simple(d, t, u, a, b, tail, g);
        },
    }
}

proof fn lemma_exprs(
    d: Renaming,
    t: TablesView,
    u: TablesView,
    a: Seq<Expr>,
    b: Seq<Expr>,
    g: Gen,
)
    requires
        renames(d, t, u),
        renamed_exprs(d, a, b),
        scope_avoids(d, g.scope),
    ensures
        commutes(d, exprs_code(t, a, g), exprs_code(u, b, renamed_gen(d, g))),
    decreases a, 0int, a.len(),
{
    if a.len() > 0 {
        let rest = a.drop_last();
        let others = b.drop_last();
        assert(forall|i: int|
            0 <= i < rest.len() ==> #[trigger] rest[i] == a[i] && others[i] == b[i]);
        assert(renamed_expr(d, a[a.len() - 1], b[a.len() - 1]));
        assert forall|i: int| 0 <= i < rest.len() implies renamed_expr(
            d,
            #[trigger] rest[i],
            others[i],
        ) by {
            assert(renamed_expr(d, a[i], b[i]));
        }
        lemma_exprs(d, t, u, rest, others, g);
        if let Ok((_, x)) = exprs_code(t, rest, g) {
            lemma_expr(d, t, u, a.last(), b.last(), false, x);
        }
    }
}

proof fn lemma_fields(
    d: Renaming,
    t: TablesView,
    u: TablesView,
    a: Seq<(String, Expr)>,
    b: Seq<(String, Expr)>,
    g: Gen,
)
    requires
        renames(d, t, u),
        renamed_fields(d, a, b),
        scope_avoids(d, g.scope),
    ensures
        commutes(d, fields_code(t, a, g), fields_code(u, b, renamed_gen(d, g))),
    decreases a, 0int, a.len(),
{
    if a.len() > 0 {
        let rest = a.drop_last();
        let others = b.drop_last();
        assert(a[a.len() - 1].0 == b[a.len() - 1].0);
        assert forall|i: int| 0 <= i < rest.len() implies (#[trigger] rest[i]).0 == others[i].0
            && renamed_expr(d, rest[i].1, others[i].1) by {
            assert(a[i].0 == b[i].0);
        }
        lemma_fields(d, t, u, rest, others, g);
        if let Ok((_, x)) = fields_code(t, rest, g) {
            lemma_expr(d, t, u, a.last().1, b.last().1, false, x);
        }
    }
}

proof fn lemma_operands(
    d: Renaming,
    t: TablesView,
    u: TablesView,
    a: Expr,
    b: Expr,
    tail: bool,
    g: Gen,
)
    requires
        renames(d, t, u),
        renamed_expr(d, a, b),
        scope_avoids(d, g.scope),
    ensures
        commutes(d, operands_code(t, a, g), operands_code(u, b, renamed_gen(d, g))),
        commutes(
            d,
            short_circuit_code(t, a, g, tail),
            short_circuit_code(u, b, renamed_gen(d, g), tail),
        ),
    decreases a, 0int, 0int,
{
    assert(renamed_kind(d, a.kind, b.kind));
    if let ExprKind::Binary { op, left, right, resolved_op } = a.kind {
        let left2 = b.kind->Binary_left;
        let right2 = b.kind->Binary_right;
        lemma_expr(d, t, u, *left, *left2, false, g);
        if let Ok((_, x)) = expr_code(t, *left, g, false) {
            lemma_expr(d, t, u, *right, *right2, false, x);
            lemma_expr(d, t, u, *right, *right2, tail, x);
        }
    }
}

proof fn lemma_binary(
    d: Renaming,
    t: TablesView,
    u: TablesView,
    a: Expr,
    b: Expr,
    tail: bool,
    g: Gen,
)
    requires
        renames(d, t, u),
        renamed_expr(d, a, b),
        scope_avoids(d, g.scope),
    ensures
        commutes(d, binary_code(t, a, g, tail), binary_code(u, b, renamed_gen(d, g), tail)),
    decreases a, 1int, 0int,
{
    assert(renamed_kind(d, a.kind, b.kind));
    if let ExprKind::Binary { op, left, right, resolved_op } = a.kind {
        lemma_operands(d, t, u, a, b, tail, g);
        match resolved_op {
            Some(ResolvedMethod::DictSlot { dict_index, slot }) => {
                lemma_load_dict(d, dict_index as nat, a.span, g);
                if let Ok((_, x)) = dict_method_code(dict_index as nat, slot as nat, a.span, g) {
                    lemma_operands(d, t, u, a, b, tail, x);
                }
            },
            Some(ResolvedMethod::Symbol(symbol)) => {
                assert(avoids(d, KeyView::Bare(symbol@)));
            },
            None => {},
        }
    }
}

proof fn lemma_if(
    d: Renaming,
    t: TablesView,
    u: TablesView,
    a: Expr,
    b: Expr,
    tail: bool,
    g: Gen,
)
    requires
        renames(d, t, u),
        renamed_expr(d, a, b),
        scope_avoids(d, g.scope),
    ensures
        commutes(d, if_code(t, a, g, tail), if_code(u, b, renamed_gen(d, g), tail)),
    decreases a, 1int, 0int,
{
    assert(renamed_kind(d, a.kind, b.kind));
    if let ExprKind::If(cond, yes, no) = a.kind {
        lemma_expr(d, t, u, *cond, *b.kind->If_0, false, g);
        if let Ok((_, x)) = expr_code(t, *cond, g, false) {
            lemma_expr(d, t, u, *yes, *b.kind->If_1, tail, x);
            if let Ok((_, y)) = expr_code(t, *yes, x, tail) {
                if let Some(n) = no {
                    lemma_expr(d, t, u, *n, *b.kind->If_2->0, tail, y);
                }
            }
        }
    }
}

proof fn lemma_match(
    d: Renaming,
    t: TablesView,
    u: TablesView,
    a: Expr,
    b: Expr,
    tail: bool,
    g: Gen,
)
    requires
        renames(d, t, u),
        renamed_expr(d, a, b),
        scope_avoids(d, g.scope),
    ensures
        commutes(d, match_code(t, a, g, tail), match_code(u, b, renamed_gen(d, g), tail)),
    decreases a, 1int, 0int,
{
    assert(renamed_kind(d, a.kind, b.kind));
    if let ExprKind::Match(value, arms) = a.kind {
        lemma_expr(d, t, u, *value, *b.kind->Match_0, false, g);
        if let Ok((_, x)) = expr_code(t, *value, g, false) {
            lemma_arms(d, t, u, arms@, b.kind->Match_1@, 0, tail, x);
        }
    }
}

proof fn lemma_arms(
    d: Renaming,
    t: TablesView,
    u: TablesView,
    a: Seq<MatchArm>,
    b: Seq<MatchArm>,
    i: nat,
    tail: bool,
    g: Gen,
)
    requires
        renames(d, t, u),
        renamed_arms(d, a, b),
        scope_avoids(d, g.scope),
    ensures
        commutes(d, arms_code(t, a, i, g, tail), arms_code(u, b, i, renamed_gen(d, g), tail)),
    decreases a, 0int, a.len() - i,
{
    if i < a.len() {
        let arm = a[i as int];
        let other = b[i as int];
        let is_last = i == a.len() - 1;
        assert(arm.pattern == other.pattern);
        lemma_pattern(d, t, u, arm.pattern, is_last, g.scope);
        if let Ok(p) = pattern_code(t, arm.pattern, is_last, g.scope) {
            let x = Gen { scope: p.scope, ..g };
            if let Some(c) = arm.guard {
                lemma_expr(d, t, u, c, other.guard->0, false, x);
            }
            let first = match arm.guard {
                Some(c) => match expr_code(t, c, x, false) {
                    Err(e) => Err(e),
                    Ok((code, k)) => Ok((Some(code), k)),
                },
                None => Ok((None, x)),
            };
            if let Ok((_, x)) = first {
                lemma_expr(d, t, u, arm.body, other.body, tail, x);
                if let Ok((_, x)) = expr_code(t, arm.body, x, tail) {
                    lemma_arms(d, t, u, a, b, i + 1, tail, x);
                }
            }
        }
    }
}

proof fn lemma_block(
    d: Renaming,
    t: TablesView,
    u: TablesView,
    a: Expr,
    b: Expr,
    tail: bool,
    g: Gen,
)
    requires
        renames(d, t, u),
        renamed_expr(d, a, b),
        scope_avoids(d, g.scope),
    ensures
        commutes(d, block_code(t, a, g, tail), block_code(u, b, renamed_gen(d, g), tail)),
    decreases a, 1int, 0int,
{
    assert(renamed_kind(d, a.kind, b.kind));
    if let ExprKind::Block(stmts, result) = a.kind {
        lemma_stmts(d, t, u, stmts@, b.kind->Block_0@, g);
        if let Ok((_, x)) = stmts_code(t, stmts@, g) {
            if let Some(last) = result {
                lemma_expr(d, t, u, *last, *b.kind->Block_1->0, tail, x);
            }
        }
    }
}

proof fn lemma_stmts(
    d: Renaming,
    t: TablesView,
    u: TablesView,
    a: Seq<Stmt>,
    b: Seq<Stmt>,
    g: Gen,
)
    requires
        renames(d, t, u),
        renamed_stmts(d, a, b),
        scope_avoids(d, g.scope),
    ensures
        commutes(d, stmts_code(t, a, g), stmts_code(u, b, renamed_gen(d, g))),
    decreases a, 0int, a.len(),
{
    if a.len() > 0 {
        let rest = a.drop_last();
        let others = b.drop_last();
        assert(renamed_stmt(d, a[a.len() - 1], b[a.len() - 1]));
        assert forall|i: int| 0 <= i < rest.len() implies renamed_stmt(
            d,
            #[trigger] rest[i],
            others[i],
        ) by {
            assert(renamed_stmt(d, a[i], b[i]));
        }
        lemma_stmts(d, t, u, rest, others, g);
        if let Ok((_, x)) = stmts_code(t, rest, g) {
            lemma_stmt(d, t, u, a.last(), b.last(), x);
        }
    }
}

proof fn lemma_block_const(d: Renaming, c: ConstDef, g: Gen)
    requires
        scope_avoids(d, g.scope),
        avoids_name(d, c.name@),
    ensures
        commutes(d, block_const_code(c, g), block_const_code(c, renamed_gen(d, g))),
{
    assert forall|h: Seq<u8>| pairs_avoid(
        d,
        #[trigger] assoc_set(g.scope.block_consts, c.name@, h),
    ) by {
        lemma_set(d, g.scope.block_consts, c.name@, h);
    }
}

proof fn lemma_stmt(
    d: Renaming,
    t: TablesView,
    u: TablesView,
    a: Stmt,
    b: Stmt,
    g: Gen,
)
    requires
        renames(d, t, u),
        renamed_stmt(d, a, b),
        scope_avoids(d, g.scope),
    ensures
        commutes(d, stmt_code(t, a, g), stmt_code(u, b, renamed_gen(d, g))),
    decreases a, 1int, 0int,
{
    match a.kind {
        StmtKind::Let(l) => {
            lemma_expr(d, t, u, l.init, b.kind->Let_0.init, false, g);
            if let Ok((_, x)) = expr_code(t, l.init, g, false) {
                lemma_with_local(d, x.scope, l.id, l.name@);
            }
        },
        StmtKind::Expr(e) => {
            lemma_expr(d, t, u, e, b.kind->Expr_0, false, g);
        },
        StmtKind::Use(_) => {},
        StmtKind::Const(c) => {
            lemma_block_const(d, c, g);
        },
    }
}

proof fn lemma_closure_call(
    d: Renaming,
    t: TablesView,
    u: TablesView,
    a: Expr,
    b: Expr,
    tail: bool,
    g: Gen,
)
    requires
        renames(d, t, u),
        renamed_expr(d, a, b),
        scope_avoids(d, g.scope),
    ensures
        commutes(
            d,
            closure_call_code(t, a, g, tail),
            closure_call_code(u, b, renamed_gen(d, g), tail),
        ),
    decreases a, 0int, 0int,
{
    assert(renamed_kind(d, a.kind, b.kind));
    if let ExprKind::Call(callee, args) = a.kind {
        lemma_expr(d, t, u, *callee, *b.kind->Call_0, false, g);
        if let Ok((_, x)) = expr_code(t, *callee, g, false) {
            lemma_exprs(d, t, u, args@, b.kind->Call_1@, x);
        }
    }
}

#[verifier::rlimit(60)]
proof fn lemma_call(
    d: Renaming,
    t: TablesView,
    u: TablesView,
    a: Expr,
    b: Expr,
    tail: bool,
    g: Gen,
)
    requires
        renames(d, t, u),
        renamed_expr(d, a, b),
        scope_avoids(d, g.scope),
    ensures
        commutes(d, call_code(t, a, g, tail), call_code(u, b, renamed_gen(d, g), tail)),
    decreases a, 1int, 0int,
{
    assert(renamed_kind(d, a.kind, b.kind));
    if let ExprKind::Call(callee, args) = a.kind {
        let callee2 = b.kind->Call_0;
        let args2 = b.kind->Call_1;
        lemma_closure_call(d, t, u, a, b, tail, g);
        assert(renamed_expr(d, *callee, *callee2));
        assert(renamed_kind(d, callee.kind, callee2.kind));
        assert(renamed_exprs(d, args@, args2@));
        if let ExprKind::Name(m) = callee.kind {
            let n = callee2.kind->Name_0;
            lemma_ref(d, t, u, m, n, g.scope);
            if function_hash(t, name_key(m)) is Some {
                lemma_exprs(d, t, u, args@, args2@, g);
                if let Ok((_, x)) = exprs_code(t, args@, g) {
                    lemma_dicts(d, t, u, callee.dicts, callee.span, x);
                }
            } else if !is_variable(g.scope, m) && args@.len() == 1 {
                assert(renamed_expr(d, args@[0], args2@[0]));
                lemma_expr(d, t, u, args@[0], args2@[0], false, g);
            }
        }
    }
}

proof fn lemma_method_call(
    d: Renaming,
    t: TablesView,
    u: TablesView,
    a: Expr,
    b: Expr,
    tail: bool,
    g: Gen,
)
    requires
        renames(d, t, u),
        renamed_expr(d, a, b),
        scope_avoids(d, g.scope),
    ensures
        commutes(
            d,
            method_call_code(t, a, g, tail),
            method_call_code(u, b, renamed_gen(d, g), tail),
        ),
    decreases a, 1int, 0int,
{
    assert(renamed_kind(d, a.kind, b.kind));
    if let ExprKind::MethodCall { receiver, method, args, resolved_method } = a.kind {
        match resolved_method {
            Some(ResolvedMethod::DictSlot { dict_index, slot }) => {
                lemma_load_dict(d, dict_index as nat, a.span, g);
                let first = dict_method_code(dict_index as nat, slot as nat, a.span, g);
                assert(commutes(
                    d,
                    first,
                    dict_method_code(dict_index as nat, slot as nat, a.span, renamed_gen(d, g)),
                ));
                if let Ok((_, x)) = first {
                    lemma_receiver(d, t, u, a, b, x);
                }
            },
            Some(ResolvedMethod::Symbol(symbol)) => {
                let key = KeyView::Bare(symbol@);
                assert(avoids(d, key));
                assert(function_hash(u, key) == function_hash(t, key));
                lemma_receiver(d, t, u, a, b, g);
            },
            None => {},
        }
    }
}

/// The code of the receiver of a method call, of the arguments and of the
/// dictionaries.
proof fn lemma_receiver(
    d: Renaming,
    t: TablesView,
    u: TablesView,
    a: Expr,
    b: Expr,
    g: Gen,
)
    requires
        renames(d, t, u),
        renamed_expr(d, a, b),
        scope_avoids(d, g.scope),
        a.kind is MethodCall,
    ensures
        ({
            let one = *a.kind->MethodCall_receiver;
            let args = a.kind->MethodCall_args@;
            let other = *b.kind->MethodCall_receiver;
            let others = b.kind->MethodCall_args@;
            &&& args.len() == others.len()
            &&& commutes(
                d,
                expr_code(t, one, g, false),
                expr_code(u, other, renamed_gen(d, g), false),
            )
            &&& expr_code(t, one, g, false) matches Ok((_, x)) ==> commutes(
                d,
                exprs_code(t, args, x),
                exprs_code(u, others, renamed_gen(d, x)),
            ) && (exprs_code(t, args, x) matches Ok((_, y)) ==> commutes(
                d,
                dicts_code(t, a.dicts, a.span, y),
                dicts_code(u, b.dicts, b.span, renamed_gen(d, y)),
            ))
        }),
    decreases a, 0int, 0int,
{
    let one = *a.kind->MethodCall_receiver;
    let args = a.kind->MethodCall_args@;
    assert(renamed_kind(d, a.kind, b.kind));
    lemma_expr(d, t, u, one, *b.kind->MethodCall_receiver, false, g);
    if let Ok((_, x)) = expr_code(t, one, g, false) {
        lemma_exprs(d, t, u, args, b.kind->MethodCall_args@, x);
        if let Ok((_, y)) = exprs_code(t, args, x) {
            lemma_dicts(d, t, u, a.dicts, a.span, y);
        }
    }
}

proof fn lemma_lambda(
    d: Renaming,
    t: TablesView,
    u: TablesView,
    a: Expr,
    b: Expr,
    g: Gen,
)
    requires
        renames(d, t, u),
        renamed_expr(d, a, b),
        scope_avoids(d, g.scope),
    ensures
        commutes(d, lambda_code(t, a, g), lambda_code(u, b, renamed_gen(d, g))),
    decreases a, 1int, 0int,
{
    assert(renamed_kind(d, a.kind, b.kind));
    if let ExprKind::Lambda(l) = a.kind {
        lemma_closure_scope(d, g.scope);
        lemma_params(d, closure_scope(g.scope), l.params@);
        if let Ok(scope) = with_params(closure_scope(g.scope), l.params@) {
            let x = Gen { scope, out: g.out };
            lemma_expr(d, t, u, *l.body, *b.kind->Lambda_0.body, false, x);
            if let Ok((code, x)) = expr_code(t, *l.body, x, false) {
                let ends = code.push(Op::Plain(Opcode::Return));
                let params = l.params@.len() as u8;
                let hash = lambda_hash(x.out.counter);
                if let Ok(f) = built_under(ends, x.scope.next_local, params, hash) {
                    lemma_lambda_added(d, x.out, f);
                    lemma_captures(d, g.scope, by_slot(x.scope.capture_names));
                }
            }
        }
    }
}

proof fn lemma_method_ref(
    d: Renaming,
    t: TablesView,
    u: TablesView,
    info: AbilityView,
    method: Seq<char>,
    span: Span,
    unknown: Seq<char>,
)
    requires
        renames(d, t, u),
    ensures
        method_ref(u, info, method, span, unknown) == method_ref(t, info, method, span, unknown),
{
    assert(avoids_name(d, impl_symbol(info.uuid, method)));
    assert(function_hash(u, KeyView::Bare(impl_symbol(info.uuid, method))) == function_hash(
        t,
        KeyView::Bare(impl_symbol(info.uuid, method)),
    ));
}

proof fn lemma_perform(
    d: Renaming,
    t: TablesView,
    u: TablesView,
    a: Expr,
    b: Expr,
    g: Gen,
)
    requires
        renames(d, t, u),
        renamed_expr(d, a, b),
        scope_avoids(d, g.scope),
    ensures
        commutes(d, perform_code(t, a, g), perform_code(u, b, renamed_gen(d, g))),
    decreases a, 1int, 0int,
{
    assert(renamed_kind(d, a.kind, b.kind));
    if let ExprKind::Perform(c) = a.kind {
        let args2 = b.kind->Perform_0.args;
        lemma_exprs(d, t, u, c.args@, args2@, g);
        if let Ok((_, x)) = exprs_code(t, c.args@, g) {
            lemma_dicts(d, t, u, a.dicts, c.span, x);
            assert(ability_of(u, c.ability) == ability_of(t, c.ability));
            if let Some(info) = ability_of(t, c.ability) {
                let unknown = unknown_method_text(c.method@, info.id);
                lemma_method_ref(d, t, u, info, c.method@, c.span, unknown);
            }
        }
    }
}

// ── handlers ────────────────────────────────────────────────────────────────

/// Whether the arms of a handler are the same but for the name of the function,
/// or the same error.
pub open spec fn same_table(
    d: Renaming,
    x: Result<ArmTable, ErrorView>,
    y: Result<ArmTable, ErrorView>,
) -> bool {
    match x {
        Err(e) => y == Err::<ArmTable, ErrorView>(e),
        Ok(a) => y == Ok::<ArmTable, ErrorView>(ArmTable { out: renamed_out(d, a.out), ..a })
            && pairs_avoid(d, a.captures),
    }
}

/// Whether the handlers of a body are the same but for the name of the function,
/// or the same error.
pub open spec fn same_installed(
    d: Renaming,
    x: Result<Installed, ErrorView>,
    y: Result<Installed, ErrorView>,
) -> bool {
    match x {
        Err(e) => y == Err::<Installed, ErrorView>(e),
        Ok(a) => y == Ok::<Installed, ErrorView>(Installed { g: renamed_gen(d, a.g), ..a })
            && scope_avoids(d, a.g.scope),
    }
}

proof fn lemma_arm_function(
    d: Renaming,
    t: TablesView,
    u: TablesView,
    outer: Scope,
    a: HandlerLiteralMethod,
    b: HandlerLiteralMethod,
    seed: Seq<(Seq<char>, u16)>,
    p: Produced,
)
    requires
        renames(d, t, u),
        renamed_method(d, a, b),
        scope_avoids(d, outer),
        pairs_avoid(d, seed),
    ensures
        match arm_function(t, outer, a, seed, p) {
            Err(e) => arm_function(u, outer, b, seed, renamed_out(d, p)) == Err::<
                (FunctionView, Gen),
                ErrorView,
            >(e),
            Ok((f, g)) => arm_function(u, outer, b, seed, renamed_out(d, p)) == Ok::<
                (FunctionView, Gen),
                ErrorView,
            >((f, renamed_gen(d, g))) && scope_avoids(d, g.scope),
        },
    decreases a, 1int, 0int,
{
    lemma_arm_scope(d, outer, seed);
    if let Ok(s) = arm_scope(outer, seed) {
        lemma_arm_params(d, s, a.params@);
        if let Ok((_, scope)) = arm_params(s, a.params@) {
            lemma_expr(d, t, u, a.body, b.body, false, Gen { scope, out: p });
        }
    }
}

proof fn lemma_arm_table(
    d: Renaming,
    t: TablesView,
    u: TablesView,
    outer: Scope,
    name: Seq<char>,
    info: AbilityView,
    a: Seq<HandlerLiteralMethod>,
    b: Seq<HandlerLiteralMethod>,
    which: Seq<int>,
    n: nat,
    p: Produced,
)
    requires
        renames(d, t, u),
        renamed_methods(d, a, b),
        scope_avoids(d, outer),
    ensures
        same_table(
            d,
            arm_table(t, outer, name, info, a, which, n, p),
            arm_table(u, outer, name, info, b, which, n, renamed_out(d, p)),
        ),
    decreases a, 1int, n,
{
    if n > 0 {
        let before = (n - 1) as nat;
        lemma_arm_table(d, t, u, outer, name, info, a, b, which, before, p);
        if let Ok(x) = arm_table(t, outer, name, info, a, which, before, p) {
            if 0 <= which[n - 1] < a.len() {
                let m = a[which[n - 1]];
                let k = b[which[n - 1]];
                assert(renamed_method(d, m, k));
                let unknown = unknown_arm_text(m.method@, name);
                lemma_method_ref(d, t, u, info, m.method@, m.span, unknown);
                lemma_arm_function(d, t, u, outer, m, k, x.captures, x.out);
                if let Ok((f, g)) = arm_function(t, outer, m, x.captures, x.out) {
                    lemma_lambda_added(d, g.out, f);
                }
            }
        }
    }
}

proof fn lemma_handler_arms(
    d: Renaming,
    t: TablesView,
    u: TablesView,
    outer: Scope,
    id: AbilityId,
    a: Seq<HandlerLiteralMethod>,
    b: Seq<HandlerLiteralMethod>,
    which: Seq<int>,
    span: Span,
    p: Produced,
)
    requires
        renames(d, t, u),
        renamed_methods(d, a, b),
        scope_avoids(d, outer),
    ensures
        same_table(
            d,
            handler_arms(t, outer, id, a, which, span, p),
            handler_arms(u, outer, id, b, which, span, renamed_out(d, p)),
        ),
    decreases a, 2int, 0int,
{
    if let Some((name, info)) = ability_by_id(t, id) {
        lemma_arm_table(d, t, u, outer, name, info, a, b, which, which.len(), p);
        if let Ok(x) = arm_table(t, outer, name, info, a, which, which.len(), p) {
            lemma_by_slot(d, x.captures);
        }
    }
}

proof fn lemma_handler_literal(
    d: Renaming,
    t: TablesView,
    u: TablesView,
    a: Expr,
    b: Expr,
    g: Gen,
)
    requires
        renames(d, t, u),
        renamed_expr(d, a, b),
        scope_avoids(d, g.scope),
    ensures
        commutes(d, handler_literal_code(t, a, g), handler_literal_code(u, b, renamed_gen(d, g))),
    decreases a, 1int, 0int,
{
    assert(renamed_kind(d, a.kind, b.kind));
    if let ExprKind::HandlerLiteral(lit) = a.kind {
        if let Some(Type::Handler(id)) = a.ty {
            let ms = lit.methods@;
            let ks = b.kind->HandlerLiteral_0.methods@;
            let all = all_of(ms.len());
            lemma_handler_arms(d, t, u, g.scope, id, ms, ks, all, a.span, g.out);
            if let Ok(x) = handler_arms(t, g.scope, id, ms, all, a.span, g.out) {
                lemma_captures(d, g.scope, x.captures);
            }
        }
    }
}

proof fn lemma_arm_groups(
    d: Renaming,
    t: TablesView,
    u: TablesView,
    a: Seq<HandlerLiteralMethod>,
    b: Seq<HandlerLiteralMethod>,
    k: int,
)
    requires
        renames(d, t, u),
        renamed_methods(d, a, b),
        k <= a.len(),
    ensures
        arm_groups(u, b, k) == arm_groups(t, a, k),
    decreases k,
{
    if k > 0 {
        lemma_arm_groups(d, t, u, a, b, k - 1);
        assert(renamed_method(d, a[k - 1], b[k - 1]));
        assert(ability_of(u, a[k - 1].ability) == ability_of(t, a[k - 1].ability));
    }
}

proof fn lemma_groups(
    d: Renaming,
    t: TablesView,
    u: TablesView,
    outer: Scope,
    a: Seq<HandlerLiteralMethod>,
    b: Seq<HandlerLiteralMethod>,
    groups: Seq<(AbilityId, Seq<int>)>,
    n: nat,
    span: Span,
    done: Installed,
)
    requires
        renames(d, t, u),
        renamed_methods(d, a, b),
        scope_avoids(d, outer),
        scope_avoids(d, done.g.scope),
    ensures
        same_installed(
            d,
            groups_code(t, outer, a, groups, n, span, done),
            groups_code(
                u,
                outer,
                b,
                groups,
                n,
                span,
                (Installed { g: renamed_gen(d, done.g), ..done }),
            ),
        ),
    decreases a, 3int, n,
{
    if n > 0 {
        let before = (n - 1) as nat;
        lemma_groups(d, t, u, outer, a, b, groups, before, span, done);
        if let Ok(c) = groups_code(t, outer, a, groups, before, span, done) {
            let (id, which) = groups[n - 1];
            lemma_handler_arms(d, t, u, outer, id, a, b, which, span, c.g.out);
            if let Ok(x) = handler_arms(t, outer, id, a, which, span, c.g.out) {
                lemma_through(d, c.g.scope, x.captures);
            }
        }
    }
}

proof fn lemma_handlers(
    d: Renaming,
    t: TablesView,
    u: TablesView,
    outer: Scope,
    a: Seq<Expr>,
    b: Seq<Expr>,
    n: nat,
    g: Gen,
)
    requires
        renames(d, t, u),
        renamed_exprs(d, a, b),
        scope_avoids(d, outer),
        scope_avoids(d, g.scope),
    ensures
        same_installed(
            d,
            handlers_code(t, outer, a, n, g),
            handlers_code(u, outer, b, n, renamed_gen(d, g)),
        ),
    decreases a, 0int, n,
{
    if n > 0 && n <= a.len() {
        let before = (n - 1) as nat;
        lemma_handlers(d, t, u, outer, a, b, before, g);
        if let Ok(done) = handlers_code(t, outer, a, before, g) {
            let x = a[n - 1];
            let y = b[n - 1];
            assert(renamed_expr(d, x, y));
            assert(renamed_kind(d, x.kind, y.kind));
            match x.kind {
                ExprKind::HandlerLiteral(lit) => {
                    let ms = lit.methods@;
                    let ks = y.kind->HandlerLiteral_0.methods@;
                    lemma_arm_groups(d, t, u, ms, ks, ms.len() as int);
                    if let Ok(groups) = arm_groups(t, ms, ms.len() as int) {
                        lemma_groups(d, t, u, outer, ms, ks, groups, groups.len(), x.span, done);
                    }
                },
                _ => {
                    lemma_expr(d, t, u, x, y, false, done.g);
                },
            }
        }
    }
}

proof fn lemma_else(
    d: Renaming,
    t: TablesView,
    u: TablesView,
    a: Option<Box<Expr>>,
    b: Option<Box<Expr>>,
    g: Gen,
)
    requires
        renames(d, t, u),
        match a {
            Some(c) => b matches Some(e) && renamed_expr(d, *c, *e),
            None => b is None,
        },
        scope_avoids(d, g.scope),
    ensures
        commutes(d, else_code(t, a, g), else_code(u, b, renamed_gen(d, g))),
    decreases a, 5int, 0int,
{
    if let Some(c) = a {
        lemma_with_local(d, g.scope, 0, result_name());
        if let Ok(scope) = with_local(g.scope, 0, result_name()) {
            lemma_expr(d, t, u, *c, *b->0, false, Gen { scope, ..g });
        }
    }
}

proof fn lemma_handle(
    d: Renaming,
    t: TablesView,
    u: TablesView,
    a: Expr,
    b: Expr,
    g: Gen,
)
    requires
        renames(d, t, u),
        renamed_expr(d, a, b),
        scope_avoids(d, g.scope),
    ensures
        commutes(d, handle_code(t, a, g), handle_code(u, b, renamed_gen(d, g))),
    decreases a, 1int, 0int,
{
    assert(renamed_kind(d, a.kind, b.kind));
    if let ExprKind::Handle(x) = a.kind {
        let y = b.kind->Handle_0;
        let hs = x.handlers@;
        let s = closure_scope(g.scope);
        let g0 = Gen { scope: s, out: g.out };
        lemma_closure_scope(d, g.scope);
        lemma_handlers(d, t, u, g.scope, hs, y.handlers@, hs.len(), g0);
        if let Ok(i) = handlers_code(t, g.scope, hs, hs.len(), g0) {
            lemma_expr(d, t, u, *x.body, *y.body, false, i.g);
            if let Ok((bc, g1)) = expr_code(t, *x.body, i.g, false) {
                lemma_else(d, t, u, x.else_clause, y.else_clause, g1);
                if let Ok((ec, g2)) = else_code(t, x.else_clause, g1) {
                    let removes = Seq::new(i.count, |k: int| Op::Plain(Opcode::Unhandle));
                    let code = i.code + bc + removes + ec.push(Op::Plain(Opcode::Return));
                    if let Ok(f) = built(code, g2.scope.next_local, 0) {
                        lemma_lambda_added(d, g2.out, f);
                        lemma_captures(d, g.scope, by_slot(g2.scope.capture_names));
                    }
                }
            }
        }
    }
}

} // verus!
