//! Compiling closures and handlers.

use vstd::prelude::*;

use crate::ast::{Expr, ExprKind, HandlerLiteralMethod, Param, Span};
use crate::bytecode::{AbilityMethodRef, CompiledFunction};
use crate::compiler::code::{handler_views, ops, Instr, Op, Opcode};
use crate::compiler::codegen::{
    all_of, arm_function, arm_groups, arm_params, arm_scope, arm_table, captures_code, else_code,
    expr_code, exprs_code, groups_code, handle_code, handler_arms, handler_literal_code,
    handlers_code, lambda_code, method_ref, perform_code, through_code, unknown_arm_text,
    unknown_method_text, with_params, Installed,
};
use crate::compiler::context::{
    ability_by_id, assoc_at, assoc_set, impl_symbol, AbilityView, CompiledAbilityInfo,
    FunctionCompiler, ModuleContext, ModuleTables, Produced, Scope, TablesView, TextTable,
};
use crate::compiler::dicts::{
    build, build_under, compile_dicts, compiled, dict_count, dicts_code, reached, Gen,
};
use crate::compiler::error::{CompileError, CompileErrorKind, ErrorView};
use crate::compiler::expr::{compile_expr_tail, compile_exprs};
use crate::digest::Digest;
use crate::text::{owned, push_decimal, push_text};
use crate::types::{AbilityId, Type};

verus! {

broadcast use {vstd::string::group_string_axioms, vstd::array::group_array_axioms};

// ── captured values ─────────────────────────────────────────────────────────

proof fn lemma_captures_fault_stays(s: Scope, caps: Seq<(Seq<char>, u16)>, k: int)
    requires
        0 <= k <= caps.len(),
        captures_code(s, caps.take(k)) is Err,
    ensures
        captures_code(s, caps) == captures_code(s, caps.take(k)),
    decreases caps.len() - k,
{
    if k < caps.len() {
        assert(caps.take(k + 1).drop_last() =~= caps.take(k));
        lemma_captures_fault_stays(s, caps, k + 1);
    } else {
        assert(caps.take(k) =~= caps);
    }
}

/// Push the values that a closure captures; on failure, the name of one that is
/// not in scope.
fn load_captures(fc: &mut FunctionCompiler, caps: &TextTable<u16>) -> (r: Result<(), String>)
    ensures
        match captures_code(old(fc).scope(), caps@) {
            Ok((code, now)) => r is Ok && final(fc).ops() == old(fc).ops() + code
                && final(fc).scope() == now,
            Err(name) => r matches Err(n) && n@ == name,
        },
{
    let ghost start = fc.ops();
    let ghost s = fc.scope();
    let ghost all = caps@;
    let mut i: usize = 0;
    assert(all.take(0) =~= seq![]);
    assert(start + seq![] =~= start);
    while i < caps.entries.len()
        invariant
            i <= caps.entries@.len(),
            all == caps@,
            s == old(fc).scope(),
            start == old(fc).ops(),
            captures_code(s, all.take(i as int)) matches Ok((code, now)) && fc.ops() == start + code
                && fc.scope() == now,
        decreases caps.entries@.len() - i,
    {
        assert(all.take(i + 1).drop_last() =~= all.take(i as int));
        proof {
            if captures_code(s, all.take(i + 1)) is Err {
                lemma_captures_fault_stays(s, all, i + 1);
            }
        }
        let ghost (done, _) = captures_code(s, all.take(i as int))->Ok_0;
        let name = caps.entries[i].0.as_str();
        if let Some(slot) = fc.get_local_by_name(name) {
            fc.emit(Instr::LoadLocal(slot));
            assert(fc.ops() =~= start + done.push(Op::LoadLocal(slot)));
        } else if fc.capture_names.get(name).is_some() || fc.is_parent_name(name) {
            let slot: u16 = fc.get_or_create_capture_by_name(name);
            fc.emit(Instr::LoadCapture(slot));
            assert(fc.ops() =~= start + done.push(Op::LoadCapture(slot)));
        } else {
            return Err(owned(name));
        }
        i = i + 1;
    }
    assert(all.take(all.len() as int) =~= all);
    Ok(())
}

/// Push values in a closure, which captures them where they are not its own.
fn load_through(fc: &mut FunctionCompiler, caps: &TextTable<u16>)
    ensures
        final(fc).ops() == old(fc).ops() + through_code(old(fc).scope(), caps@).0,
        final(fc).scope() == through_code(old(fc).scope(), caps@).1,
{
    let ghost start = fc.ops();
    let ghost s = fc.scope();
    let ghost all = caps@;
    let mut i: usize = 0;
    assert(all.take(0) =~= seq![]);
    assert(start + seq![] =~= start);
    while i < caps.entries.len()
        invariant
            i <= caps.entries@.len(),
            all == caps@,
            fc.ops() == start + through_code(s, all.take(i as int)).0,
            fc.scope() == through_code(s, all.take(i as int)).1,
        decreases caps.entries@.len() - i,
    {
        assert(all.take(i + 1).drop_last() =~= all.take(i as int));
        let ghost done = through_code(s, all.take(i as int));
        let name = caps.entries[i].0.as_str();
        if let Some(slot) = fc.get_local_by_name(name) {
            fc.emit(Instr::LoadLocal(slot));
            assert(fc.ops() =~= start + done.0.push(Op::LoadLocal(slot)));
        } else {
            let slot: u16 = fc.get_or_create_capture_by_name(name);
            fc.emit(Instr::LoadCapture(slot));
            assert(fc.ops() =~= start + done.0.push(Op::LoadCapture(slot)));
        }
        i = i + 1;
    }
    assert(all.take(all.len() as int) =~= all);
}

proof fn lemma_params_fault_stays(s: Scope, params: Seq<Param>, k: int)
    requires
        0 <= k <= params.len(),
        with_params(s, params.take(k)) is Err,
    ensures
        with_params(s, params) == with_params(s, params.take(k)),
    decreases params.len() - k,
{
    if k < params.len() {
        assert(params.take(k + 1).drop_last() =~= params.take(k));
        lemma_params_fault_stays(s, params, k + 1);
    } else {
        assert(params.take(k) =~= params);
    }
}

/// Give parameters locals.
pub(crate) fn alloc_params(fc: &mut FunctionCompiler, params: &Vec<Param>) -> (r: Result<
    (),
    CompileError,
>)
    ensures
        final(fc).ops() == old(fc).ops(),
        match with_params(old(fc).scope(), params@) {
            Ok(s) => r is Ok && final(fc).scope() == s,
            Err(e) => r matches Err(f) && f@ == e,
        },
{
    let ghost s = fc.scope();
    let ghost start = fc.ops();
    let mut i: usize = 0;
    assert(params@.take(0) =~= seq![]);
    while i < params.len()
        invariant
            i <= params@.len(),
            s == old(fc).scope(),
            start == old(fc).ops(),
            fc.ops() == start,
            with_params(s, params@.take(i as int)) matches Ok(now) && fc.scope() == now,
        decreases params@.len() - i,
    {
        assert(params@.take(i + 1).drop_last() =~= params@.take(i as int));
        proof {
            if with_params(s, params@.take(i + 1)) is Err {
                lemma_params_fault_stays(s, params@, i + 1);
            }
        }
        let slot: u16 = fc.alloc_local_with_name(params[i].id, params[i].name.as_str())?;
        i = i + 1;
    }
    assert(params@.take(params@.len() as int) =~= params@);
    Ok(())
}

// ── lambdas ─────────────────────────────────────────────────────────────────

/// Compile a lambda.
pub fn compile_lambda(
    t: &ModuleTables,
    fc: &mut FunctionCompiler,
    expr: &Expr,
    ctx: &mut ModuleContext,
) -> (r: Result<(), CompileError>)
    requires
        expr.kind is Lambda,
    ensures
        compiled(
            lambda_code(t@, *expr, reached(*old(fc), *old(ctx))),
            old(fc).ops(),
            r,
            *final(fc),
            *final(ctx),
        ),
    decreases *expr, 1int, 0int,
{
    let ghost start = fc.ops();
    let ghost g = reached(*fc, *ctx);
    if let ExprKind::Lambda(l) = &expr.kind {
        let mut inner = FunctionCompiler::new_for_closure(fc);
        alloc_params(&mut inner, &l.params)?;
        let ghost begun = reached(inner, *ctx);
        compile_expr_tail(t, &mut inner, &l.body, ctx, false)?;
        let ghost h = reached(inner, *ctx);
        let ghost bc = expr_code(t@, *l.body, begun, false)->Ok_0.0;
        inner.emit_plain(Opcode::Return);
        assert(inner.ops() =~= bc.push(Op::Plain(Opcode::Return)));
        let temporary = ctx.next_lambda_hash();
        let function = build_under(
            &inner.code,
            inner.next_local,
            l.params.len() as u8,
            temporary,
        )?;
        let caps = inner.get_capture_names_in_order();
        let hash = ctx.register_lambda(function);
        if let Err(name) = load_captures(fc, &caps) {
            let mut feature = owned("unknown capture: ");
            push_text(&mut feature, name.as_str());
            return Err(CompileError::unsupported(feature, (0, 0)));
        }
        let n: usize = caps.entries.len();
        fc.emit(Instr::MakeClosure(hash, n as u8));
        proof {
            let (loads, _) = captures_code(g.scope, caps@)->Ok_0;
            assert(caps@.len() == n);
            assert(fc.ops() =~= start + loads.push(Op::MakeClosure(hash@, caps@.len() as u8)));
        }
    }
    Ok(())
}

// ── methods of abilities ────────────────────────────────────────────────────

/// The method of an ability as code refers to it.
fn resolve_method_ref(
    t: &ModuleTables,
    info: &CompiledAbilityInfo,
    method: &str,
    span: Span,
    unknown: String,
) -> (r: Result<AbilityMethodRef, CompileError>)
    ensures
        match method_ref(t@, info@, method@, span, unknown@) {
            Ok(m) => r matches Ok(x) && x@ == m,
            Err(e) => r matches Err(f) && f@ == e,
        },
{
    let m = match info.method(method) {
        Some(m) => m,
        None => {
            return Err(CompileError::unsupported(unknown, span.as_pair()));
        },
    };
    let mut impl_fn: Option<Digest> = None;
    if m.has_impl {
        let symbol = info.impl_symbol(method);
        match t.symbol_hash(symbol.as_str()) {
            Some(h) => {
                impl_fn = Some(h);
            },
            None => {
                return Err(
                    CompileError::internal(
                        "ability method implementation not in the linking table",
                        span.as_pair(),
                    ),
                );
            },
        }
    }
    Ok(
        AbilityMethodRef {
            ability_id: info.id,
            ability_uuid: info.uuid,
            signature: m.signature,
            impl_fn,
            never: m.never,
        },
    )
}

/// The text of the error for a method that an ability does not have.
fn unknown_method_message(method: &str, id: AbilityId) -> (r: String)
    ensures
        r@ == unknown_method_text(method@, id),
{
    let mut out = owned("unknown method `");
    push_text(&mut out, method);
    push_text(&mut out, "` for ability id ");
    push_decimal(&mut out, id);
    out
}

/// The text of the error for an arm for a method that an ability does not have.
fn unknown_arm_message(method: &str, ability: &str) -> (r: String)
    ensures
        r@ == unknown_arm_text(method@, ability@),
{
    let mut out = owned("unknown method `");
    push_text(&mut out, method);
    push_text(&mut out, "` for ability `");
    push_text(&mut out, ability);
    push_text(&mut out, "`");
    out
}

/// Compile the performing of a method of an ability.
pub fn compile_perform(
    t: &ModuleTables,
    fc: &mut FunctionCompiler,
    expr: &Expr,
    ctx: &mut ModuleContext,
) -> (r: Result<(), CompileError>)
    requires
        expr.kind is Perform,
    ensures
        compiled(
            perform_code(t@, *expr, reached(*old(fc), *old(ctx))),
            old(fc).ops(),
            r,
            *final(fc),
            *final(ctx),
        ),
    decreases *expr, 1int, 0int,
{
    let ghost start = fc.ops();
    let ghost g = reached(*fc, *ctx);
    if let ExprKind::Perform(c) = &expr.kind {
        compile_exprs(t, fc, &c.args, ctx)?;
        let ghost h = reached(*fc, *ctx);
        let ghost ac = exprs_code(t@, c.args@, g)->Ok_0.0;
        let dicts: usize = compile_dicts(t, fc, &expr.dicts, c.span, ctx)?;
        let ghost dc = dicts_code(t@, expr.dicts, c.span, h)->Ok_0.0;
        let info = match t.resolve_ability(&c.ability) {
            Some(info) => info,
            None => {
                return Err(
                    CompileError::new(
                        CompileErrorKind::UnknownAbilityMethod {
                            ability: owned(c.ability.name.as_str()),
                            method: owned(c.method.as_str()),
                        },
                        c.span.as_pair(),
                    ),
                );
            },
        };
        let unknown = unknown_method_message(c.method.as_str(), info.id);
        let m = resolve_method_ref(t, info, c.method.as_str(), c.span, unknown)?;
        let count: u128 = c.args.len() as u128 + dicts as u128;
        let ghost view = m@;
        fc.emit(Instr::Suspend(m, count as u8));
        fc.emit_plain(Opcode::Perform);
        assert(fc.ops() =~= start + (ac + dc + seq![
            Op::Suspend(view, (c.args@.len() + dict_count(expr.dicts)) as u8),
            Op::Plain(Opcode::Perform),
        ]));
    }
    Ok(())
}

// ── handlers ────────────────────────────────────────────────────────────────

proof fn lemma_arm_params_fault_stays(s: Scope, params: Seq<Param>, k: int)
    requires
        0 <= k <= params.len(),
        arm_params(s, params.take(k)) is Err,
    ensures
        arm_params(s, params) == arm_params(s, params.take(k)),
    decreases params.len() - k,
{
    if k < params.len() {
        assert(params.take(k + 1).drop_last() =~= params.take(k));
        lemma_arm_params_fault_stays(s, params, k + 1);
    } else {
        assert(params.take(k) =~= params);
    }
}

/// Take the arguments of a performed method into the parameters of an arm.
fn take_arm_params(fc: &mut FunctionCompiler, params: &Vec<Param>) -> (r: Result<
    (),
    CompileError,
>)
    ensures
        match arm_params(old(fc).scope(), params@) {
            Ok((code, s)) => r is Ok && final(fc).ops() == old(fc).ops() + code && final(fc).scope() == s,
            Err(e) => r matches Err(f) && f@ == e,
        },
{
    let ghost s = fc.scope();
    let ghost start = fc.ops();
    let mut i: usize = 0;
    assert(params@.take(0) =~= seq![]);
    assert(start + seq![] =~= start);
    while i < params.len()
        invariant
            i <= params@.len(),
            s == old(fc).scope(),
            start == old(fc).ops(),
            arm_params(s, params@.take(i as int)) matches Ok((code, now)) && fc.ops() == start
                + code && fc.scope() == now,
        decreases params@.len() - i,
    {
        assert(params@.take(i + 1).drop_last() =~= params@.take(i as int));
        proof {
            if arm_params(s, params@.take(i + 1)) is Err {
                lemma_arm_params_fault_stays(s, params@, i + 1);
            }
        }
        let ghost done = arm_params(s, params@.take(i as int))->Ok_0.0;
        fc.alloc_local_with_name(params[i].id, params[i].name.as_str())?;
        let slot: u16 = (2 + i as u128) as u16;
        fc.emit(Instr::LoadLocal(1));
        fc.emit(Instr::GetAbilityArg(i as u8));
        fc.emit(Instr::StoreLocal(slot));
        assert(fc.ops() =~= start + (done + seq![
            Op::LoadLocal(1),
            Op::GetAbilityArg(i as u8),
            Op::StoreLocal(slot),
        ]));
        i = i + 1;
    }
    assert(params@.take(params@.len() as int) =~= params@);
    Ok(())
}

/// Compile an arm of a handler, and say what the arms have captured so far.
fn compile_handler_arm(
    t: &ModuleTables,
    outer: &FunctionCompiler,
    m: &HandlerLiteralMethod,
    seed: TextTable<u16>,
    ctx: &mut ModuleContext,
) -> (r: Result<(CompiledFunction, TextTable<u16>), CompileError>)
    ensures
        match arm_function(t@, outer.scope(), *m, seed@, old(ctx)@) {
            Ok((f, h)) => r matches Ok((c, caps)) && c@ == f && caps@ == h.scope.capture_names
                && final(ctx)@ == h.out,
            Err(e) => r matches Err(f) && f@ == e,
        },
    decreases *m, 1int, 0int,
{
    let mut inner = FunctionCompiler::new_for_closure(outer);
    inner.capture_names = seed;
    assert(inner.ops() =~= seq![]);
    inner.alloc_local_with_name(0, "__continuation")?;
    inner.alloc_local_with_name(0, "__suspended_ability")?;
    let ghost s = inner.scope();
    assert(arm_scope(outer.scope(), seed@) == Ok::<Scope, ErrorView>(s));
    take_arm_params(&mut inner, &m.params)?;
    let ghost pc = arm_params(s, m.params@)->Ok_0.0;
    let ghost begun = reached(inner, *ctx);
    compile_expr_tail(t, &mut inner, &m.body, ctx, false)?;
    let ghost bc = expr_code(t@, m.body, begun, false)->Ok_0.0;
    inner.emit_plain(Opcode::Return);
    assert(inner.ops() =~= pc + bc.push(Op::Plain(Opcode::Return)));
    let f = build(&inner.code, inner.next_local, 2)?;
    Ok((f, inner.capture_names))
}

/// The positions that a vector holds.
pub open spec fn positions(v: Seq<usize>) -> Seq<int> {
    Seq::new(v.len(), |i: int| v[i] as int)
}

proof fn lemma_table_fault_stays(
    t: TablesView,
    outer: Scope,
    name: Seq<char>,
    info: AbilityView,
    ms: Seq<HandlerLiteralMethod>,
    which: Seq<int>,
    k: nat,
    n: nat,
    out: Produced,
)
    requires
        k <= n,
        arm_table(t, outer, name, info, ms, which, k, out) is Err,
    ensures
        arm_table(t, outer, name, info, ms, which, n, out) == arm_table(
            t,
            outer,
            name,
            info,
            ms,
            which,
            k,
            out,
        ),
    decreases n - k,
{
    if k < n {
        lemma_table_fault_stays(t, outer, name, info, ms, which, k + 1, n, out);
    }
}

/// Compile the arms of a handler of an ability.
fn compile_handler_methods(
    t: &ModuleTables,
    outer: &FunctionCompiler,
    id: AbilityId,
    ms: &Vec<HandlerLiteralMethod>,
    which: &Vec<usize>,
    span: Span,
    ctx: &mut ModuleContext,
) -> (r: Result<(Vec<(AbilityMethodRef, Digest)>, TextTable<u16>), CompileError>)
    requires
        forall|i: int| 0 <= i < which@.len() ==> (#[trigger] which@[i]) < ms@.len(),
    ensures
        match handler_arms(
            t@,
            outer.scope(),
            id,
            ms@,
            positions(which@),
            span,
            old(ctx)@,
        ) {
            Ok(a) => r matches Ok((table, caps)) && handler_views(table@) == a.methods && caps@
                == a.captures && final(ctx)@ == a.out,
            Err(e) => r matches Err(f) && f@ == e,
        },
    decreases ms@, 2int, 0int,
{
    let (name, info) = match t.ability_by_id(id) {
        Some(found) => found,
        None => {
            let mut feature = owned("unknown ability ID: ");
            push_decimal(&mut feature, id);
            return Err(CompileError::unsupported(feature, span.as_pair()));
        },
    };
    let ghost at = positions(which@);
    let ghost out = ctx@;
    let ghost scope = outer.scope();
    let mut table: Vec<(AbilityMethodRef, Digest)> = Vec::new();
    let mut caps: TextTable<u16> = TextTable::new();
    let mut i: usize = 0;
    assert(handler_views(table@) =~= seq![]);
    while i < which.len()
        invariant
            i <= which@.len(),
            at == positions(which@),
            out == old(ctx)@,
            scope == outer.scope(),
            ability_by_id(t@, id) == Some((name@, info@)),
            forall|k: int| 0 <= k < which@.len() ==> (#[trigger] which@[k]) < ms@.len(),
            arm_table(t@, scope, name@, info@, ms@, at, i as nat, out) matches Ok(a)
                && handler_views(table@) == a.methods && caps@ == a.captures && ctx@ == a.out,
        decreases which@.len() - i,
    {
        proof {
            if arm_table(t@, scope, name@, info@, ms@, at, (i + 1) as nat, out) is Err {
                lemma_table_fault_stays(
                    t@,
                    scope,
                    name@,
                    info@,
                    ms@,
                    at,
                    (i + 1) as nat,
                    at.len(),
                    out,
                );
            }
            assert(at[i as int] == which@[i as int]);
            assert(decreases_to!(ms@ => ms@[which@[i as int] as int]));
        }
        let ghost done = arm_table(t@, scope, name@, info@, ms@, at, i as nat, out)->Ok_0;
        let m = &ms[which[i]];
        let unknown = unknown_arm_message(m.method.as_str(), name.as_str());
        let method = resolve_method_ref(t, info, m.method.as_str(), m.span, unknown)?;
        let mut seed: TextTable<u16> = TextTable::new();
        std::mem::swap(&mut seed, &mut caps);
        let (f, captured) = compile_handler_arm(t, outer, m, seed, ctx)?;
        caps = captured;
        let hash = ctx.register_lambda(f);
        let ghost x = (method@, hash@);
        table.push((method, hash));
        assert(handler_views(table@) =~= done.methods.push(x));
        i = i + 1;
    }
    Ok((table, caps.in_slot_order()))
}

/// Compile a handler as a value.
pub fn compile_handler_literal(
    t: &ModuleTables,
    fc: &mut FunctionCompiler,
    expr: &Expr,
    ctx: &mut ModuleContext,
) -> (r: Result<(), CompileError>)
    requires
        expr.kind is HandlerLiteral,
    ensures
        compiled(
            handler_literal_code(t@, *expr, reached(*old(fc), *old(ctx))),
            old(fc).ops(),
            r,
            *final(fc),
            *final(ctx),
        ),
    decreases *expr, 1int, 0int,
{
    let ghost start = fc.ops();
    let ghost g = reached(*fc, *ctx);
    if let ExprKind::HandlerLiteral(lit) = &expr.kind {
        let id: AbilityId = match &expr.ty {
            Some(Type::Handler(id)) => *id,
            _ => {
                return Err(
                    CompileError::unsupported(
                        owned("handler literal without type annotation"),
                        expr.span.as_pair(),
                    ),
                );
            },
        };
        let which = all_positions(lit.methods.len());
        let (table, caps) = compile_handler_methods(
            t,
            fc,
            id,
            &lit.methods,
            &which,
            expr.span,
            ctx,
        )?;
        if let Err(name) = load_captures(fc, &caps) {
            let mut feature = owned("unknown capture in handler literal: ");
            push_text(&mut feature, name.as_str());
            return Err(CompileError::unsupported(feature, expr.span.as_pair()));
        }
        let n: usize = caps.entries.len();
        let ghost methods = handler_views(table@);
        fc.emit(Instr::MakeHandler(id, table, n as u8));
        proof {
            let (loads, _) = captures_code(g.scope, caps@)->Ok_0;
            assert(caps@.len() == n);
            assert(fc.ops() =~= start + loads.push(
                Op::MakeHandler(id, methods, caps@.len() as u8),
            ));
        }
    }
    Ok(())
}

/// The positions of all of some values.
fn all_positions(n: usize) -> (r: Vec<usize>)
    ensures
        positions(r@) == all_of(n as nat),
        forall|i: int| 0 <= i < r@.len() ==> (#[trigger] r@[i]) < n,
{
    let mut r: Vec<usize> = Vec::new();
    let mut i: usize = 0;
    while i < n
        invariant
            i <= n,
            r@.len() == i,
            forall|k: int| 0 <= k < i ==> (#[trigger] r@[k]) == k,
        decreases n - i,
    {
        r.push(i);
        i = i + 1;
    }
    assert(positions(r@) =~= all_of(n as nat));
    r
}

/// What groups of arms say.
pub open spec fn group_views(s: Seq<(AbilityId, Vec<usize>)>) -> Seq<(AbilityId, Seq<int>)> {
    Seq::new(s.len(), |i: int| (s[i].0, positions(s[i].1@)))
}

proof fn lemma_groups_fault_stays(
    t: TablesView,
    ms: Seq<HandlerLiteralMethod>,
    k: int,
    n: int,
)
    requires
        0 <= k <= n,
        arm_groups(t, ms, k) is Err,
    ensures
        arm_groups(t, ms, n) == arm_groups(t, ms, k),
    decreases n - k,
{
    if k < n {
        lemma_groups_fault_stays(t, ms, k + 1, n);
    }
}

/// Where an ability stands in groups of arms.
fn find_group(groups: &Vec<(AbilityId, Vec<usize>)>, id: AbilityId) -> (r: Option<usize>)
    ensures
        match r {
            Some(i) => i == assoc_at(group_views(groups@), id) && i < groups@.len(),
            None => assoc_at(group_views(groups@), id) == -1,
        },
{
    let ghost all = group_views(groups@);
    let mut n: usize = groups.len();
    assert(all.take(n as int) =~= all);
    while n > 0
        invariant
            n <= groups@.len(),
            all == group_views(groups@),
            assoc_at(all, id) == assoc_at(all.take(n as int), id),
        decreases n,
    {
        assert(all.take(n as int).drop_last() =~= all.take(n - 1));
        n = n - 1;
        if groups[n].0 == id {
            return Some(n);
        }
    }
    None
}

/// The arms of a handler by the ability they handle.
fn group_arms(t: &ModuleTables, ms: &Vec<HandlerLiteralMethod>) -> (r: Result<
    Vec<(AbilityId, Vec<usize>)>,
    CompileError,
>)
    ensures
        match arm_groups(t@, ms@, ms@.len() as int) {
            Ok(groups) => r matches Ok(v) && group_views(v@) == groups && (forall|i: int, j: int|
                0 <= i < v@.len() && 0 <= j < v@[i].1@.len() ==> (#[trigger] v@[i].1@[j])
                    < ms@.len()),
            Err(e) => r matches Err(f) && f@ == e,
        },
{
    let mut groups: Vec<(AbilityId, Vec<usize>)> = Vec::new();
    let mut i: usize = 0;
    assert(group_views(groups@) =~= seq![]);
    while i < ms.len()
        invariant
            i <= ms@.len(),
            arm_groups(t@, ms@, i as int) == Ok::<_, ErrorView>(group_views(groups@)),
            forall|a: int, j: int|
                0 <= a < groups@.len() && 0 <= j < groups@[a].1@.len() ==> (
                #[trigger] groups@[a].1@[j]) < ms@.len(),
        decreases ms@.len() - i,
    {
        proof {
            if arm_groups(t@, ms@, i + 1) is Err {
                lemma_groups_fault_stays(t@, ms@, i + 1, ms@.len() as int);
            }
        }
        let ghost was = group_views(groups@);
        let ghost first = groups@;
        let info = match t.resolve_ability(&ms[i].ability) {
            Some(info) => info,
            None => {
                let mut feature = owned("unknown ability: ");
                push_text(&mut feature, ms[i].ability.name.as_str());
                return Err(CompileError::unsupported(feature, ms[i].span.as_pair()));
            },
        };
        let id: AbilityId = info.id;
        match find_group(&groups, id) {
            Some(at) => {
                let (_, mut arms) = groups.remove(at);
                let ghost before = arms@;
                arms.push(i);
                assert(positions(arms@) =~= positions(before).push(i as int));
                groups.insert(at, (id, arms));
                proof {
                    assert(groups@ =~= first.update(at as int, (id, arms)));
                    assert(group_views(groups@) =~= assoc_set(
                        was,
                        id,
                        positions(before).push(i as int),
                    ));
                }
            },
            None => {
                let mut arms: Vec<usize> = Vec::new();
                arms.push(i);
                assert(positions(arms@) =~= seq![].push(i as int));
                groups.push((id, arms));
                proof {
                    assert(group_views(groups@) =~= assoc_set(was, id, seq![].push(i as int)));
                }
            },
        }
        i = i + 1;
    }
    Ok(groups)
}

proof fn lemma_group_codes_fault_stays(
    t: TablesView,
    outer: Scope,
    ms: Seq<HandlerLiteralMethod>,
    groups: Seq<(AbilityId, Seq<int>)>,
    k: nat,
    n: nat,
    span: Span,
    done: Installed,
)
    requires
        k <= n,
        groups_code(t, outer, ms, groups, k, span, done) is Err,
    ensures
        groups_code(t, outer, ms, groups, n, span, done) == groups_code(
            t,
            outer,
            ms,
            groups,
            k,
            span,
            done,
        ),
    decreases n - k,
{
    if k < n {
        lemma_group_codes_fault_stays(t, outer, ms, groups, k + 1, n, span, done);
    }
}

/// Whether a closure has installed what it should; `removes` holds what removes
/// the handlers again.
pub open spec fn installed(
    start: Seq<Op>,
    removes: Seq<Opcode>,
    inner: FunctionCompiler,
    ctx: ModuleContext,
    want: Installed,
) -> bool {
    inner.ops() == start + want.code && reached(inner, ctx) == want.g && removes == Seq::new(
        want.count,
        |k: int| Opcode::Unhandle,
    )
}

/// Install the handlers of groups of arms in a closure.
fn compile_groups(
    t: &ModuleTables,
    outer: &FunctionCompiler,
    inner: &mut FunctionCompiler,
    ms: &Vec<HandlerLiteralMethod>,
    groups: &Vec<(AbilityId, Vec<usize>)>,
    span: Span,
    removes: &mut Vec<Opcode>,
    ctx: &mut ModuleContext,
    start: Ghost<Seq<Op>>,
    done: Ghost<Installed>,
) -> (r: Result<(), CompileError>)
    requires
        forall|i: int, j: int|
            0 <= i < groups@.len() && 0 <= j < groups@[i].1@.len() ==> (
            #[trigger] groups@[i].1@[j]) < ms@.len(),
        installed(start@, old(removes)@, *old(inner), *old(ctx), done@),
    ensures
        match groups_code(
            t@,
            outer.scope(),
            ms@,
            group_views(groups@),
            groups@.len(),
            span,
            done@,
        ) {
            Ok(b) => r is Ok && installed(
                start@,
                final(removes)@,
                *final(inner),
                *final(ctx),
                b,
            ),
            Err(e) => r matches Err(f) && f@ == e,
        },
    decreases ms@, 3int, groups@.len(),
{
    let ghost views = group_views(groups@);
    let ghost scope = outer.scope();
    let mut i: usize = 0;
    while i < groups.len()
        invariant
            i <= groups@.len(),
            views == group_views(groups@),
            scope == outer.scope(),
            forall|a: int, j: int|
                0 <= a < groups@.len() && 0 <= j < groups@[a].1@.len() ==> (
                #[trigger] groups@[a].1@[j]) < ms@.len(),
            groups_code(t@, scope, ms@, views, i as nat, span, done@) matches Ok(b) && installed(
                start@,
                removes@,
                *inner,
                *ctx,
                b,
            ),
        decreases groups@.len() - i,
    {
        proof {
            if groups_code(t@, scope, ms@, views, (i + 1) as nat, span, done@) is Err {
                lemma_group_codes_fault_stays(
                    t@,
                    scope,
                    ms@,
                    views,
                    (i + 1) as nat,
                    views.len(),
                    span,
                    done@,
                );
            }
            assert(views[i as int] == (groups@[i as int].0, positions(groups@[i as int].1@)));
        }
        let ghost b = groups_code(t@, scope, ms@, views, i as nat, span, done@)->Ok_0;
        let id: AbilityId = groups[i].0;
        let (table, caps) = compile_handler_methods(t, outer, id, ms, &groups[i].1, span, ctx)?;
        load_through(inner, &caps);
        let ghost through = through_code(b.g.scope, caps@);
        let n: usize = caps.entries.len();
        let ghost methods = handler_views(table@);
        inner.emit(Instr::MakeHandler(id, table, n as u8));
        inner.emit_plain(Opcode::HandleWithValue);
        removes.push(Opcode::Unhandle);
        proof {
            assert(caps@.len() == n);
            assert(inner.ops() =~= start@ + (b.code + through.0 + seq![
                Op::MakeHandler(id, methods, caps@.len() as u8),
                Op::Plain(Opcode::HandleWithValue),
            ]));
            assert(removes@ =~= Seq::new(b.count + 1, |k: int| Opcode::Unhandle));
        }
        i = i + 1;
    }
    Ok(())
}

proof fn lemma_handlers_fault_stays(
    t: TablesView,
    outer: Scope,
    hs: Seq<Expr>,
    k: nat,
    n: nat,
    g: Gen,
)
    requires
        k <= n <= hs.len(),
        handlers_code(t, outer, hs, k, g) is Err,
    ensures
        handlers_code(t, outer, hs, n, g) == handlers_code(t, outer, hs, k, g),
    decreases n - k,
{
    if k < n {
        lemma_handlers_fault_stays(t, outer, hs, k + 1, n, g);
    }
}

/// Install handlers in a closure, and say what removes them again.
fn compile_handlers(
    t: &ModuleTables,
    outer: &FunctionCompiler,
    inner: &mut FunctionCompiler,
    hs: &Vec<Expr>,
    ctx: &mut ModuleContext,
) -> (r: Result<Vec<Opcode>, CompileError>)
    ensures
        match handlers_code(
            t@,
            outer.scope(),
            hs@,
            hs@.len(),
            reached(*old(inner), *old(ctx)),
        ) {
            Ok(b) => r matches Ok(removes) && installed(
                old(inner).ops(),
                removes@,
                *final(inner),
                *final(ctx),
                b,
            ),
            Err(e) => r matches Err(f) && f@ == e,
        },
    decreases hs@, 0int, hs@.len(),
{
    let ghost g = reached(*inner, *ctx);
    let ghost start = inner.ops();
    let ghost scope = outer.scope();
    let mut removes: Vec<Opcode> = Vec::new();
    let mut i: usize = 0;
    assert(start + seq![] =~= start);
    assert(removes@ =~= Seq::new(0, |k: int| Opcode::Unhandle));
    while i < hs.len()
        invariant
            i <= hs@.len(),
            g == reached(*old(inner), *old(ctx)),
            start == old(inner).ops(),
            scope == outer.scope(),
            handlers_code(t@, scope, hs@, i as nat, g) matches Ok(b) && installed(
                start,
                removes@,
                *inner,
                *ctx,
                b,
            ),
        decreases hs@.len() - i,
    {
        proof {
            if handlers_code(t@, scope, hs@, (i + 1) as nat, g) is Err {
                lemma_handlers_fault_stays(t@, scope, hs@, (i + 1) as nat, hs@.len(), g);
            }
            assert(decreases_to!(hs@ => hs@[i as int]));
        }
        let ghost b = handlers_code(t@, scope, hs@, i as nat, g)->Ok_0;
        let h = &hs[i];
        match &h.kind {
            ExprKind::HandlerLiteral(lit) => {
                let groups = group_arms(t, &lit.methods)?;
                compile_groups(
                    t,
                    outer,
                    inner,
                    &lit.methods,
                    &groups,
                    h.span,
                    &mut removes,
                    ctx,
                    Ghost(start),
                    Ghost(b),
                )?;
            },
            _ => {
                match &h.ty {
                    Some(Type::Handler(_)) => {},
                    Some(_) => {
                        return Err(
                            CompileError::internal(
                                "handle-with expression has a non-handler type",
                                h.span.as_pair(),
                            ),
                        );
                    },
                    None => {
                        return Err(
                            CompileError::internal(
                                "handler value expression missing its inferred type",
                                h.span.as_pair(),
                            ),
                        );
                    },
                }
                compile_expr_tail(t, inner, h, ctx, false)?;
                inner.emit_plain(Opcode::HandleWithValue);
                removes.push(Opcode::Unhandle);
                proof {
                    let code = expr_code(t@, *h, b.g, false)->Ok_0.0;
                    assert(inner.ops() =~= start + (b.code + code.push(
                        Op::Plain(Opcode::HandleWithValue),
                    )));
                    assert(removes@ =~= Seq::new(b.count + 1, |k: int| Opcode::Unhandle));
                }
            },
        }
        i = i + 1;
    }
    Ok(removes)
}

/// Remove handlers.
fn emit_removes(fc: &mut FunctionCompiler, removes: &Vec<Opcode>)
    ensures
        final(fc).ops() == old(fc).ops() + Seq::new(
            removes@.len(),
            |k: int| Op::Plain(removes@[k]),
        ),
        final(fc).scope() == old(fc).scope(),
{
    let ghost start = fc.ops();
    let ghost scope = fc.scope();
    let mut i: usize = 0;
    assert(start =~= start + Seq::new(0, |k: int| Op::Plain(removes@[k])));
    while i < removes.len()
        invariant
            i <= removes@.len(),
            fc.ops() == start + Seq::new(i as nat, |k: int| Op::Plain(removes@[k])),
            fc.scope() == scope,
        decreases removes@.len() - i,
    {
        fc.emit_plain(removes[i]);
        i = i + 1;
        assert(fc.ops() =~= start + Seq::new(i as nat, |k: int| Op::Plain(removes@[k])));
    }
}

/// Compile what is applied to the value of a handled body.
fn compile_else(
    t: &ModuleTables,
    inner: &mut FunctionCompiler,
    clause: &Option<Box<Expr>>,
    ctx: &mut ModuleContext,
) -> (r: Result<(), CompileError>)
    ensures
        compiled(
            else_code(t@, *clause, reached(*old(inner), *old(ctx))),
            old(inner).ops(),
            r,
            *final(inner),
            *final(ctx),
        ),
    decreases *clause, 5int, 0int,
{
    let ghost start = inner.ops();
    match clause {
        None => {
            assert(start + seq![] =~= start);
            Ok(())
        },
        Some(c) => {
            let slot: u16 = inner.alloc_local_with_name(0, "__handle_result")?;
            let ghost g = reached(*inner, *ctx);
            inner.emit(Instr::StoreLocal(slot));
            compile_expr_tail(t, inner, c, ctx, false)?;
            inner.emit(Instr::LoadLocal(slot));
            inner.emit(Instr::CallClosure(1));
            proof {
                let ec = expr_code(t@, **c, g, false)->Ok_0.0;
                assert(inner.ops() =~= start + (seq![Op::StoreLocal(slot)] + ec + seq![
                    Op::LoadLocal(slot),
                    Op::CallClosure(1),
                ]));
            }
            Ok(())
        },
    }
}

/// Compile a body with handlers.
pub fn compile_handle_expr(
    t: &ModuleTables,
    fc: &mut FunctionCompiler,
    expr: &Expr,
    ctx: &mut ModuleContext,
) -> (r: Result<(), CompileError>)
    requires
        expr.kind is Handle,
    ensures
        compiled(
            handle_code(t@, *expr, reached(*old(fc), *old(ctx))),
            old(fc).ops(),
            r,
            *final(fc),
            *final(ctx),
        ),
    decreases *expr, 1int, 0int,
{
    let ghost start = fc.ops();
    let ghost g = reached(*fc, *ctx);
    if let ExprKind::Handle(x) = &expr.kind {
        let mut inner = FunctionCompiler::new_for_closure(fc);
        let ghost begun = reached(inner, *ctx);
        let removes = compile_handlers(t, fc, &mut inner, &x.handlers, ctx)?;
        let ghost i = handlers_code(t@, g.scope, x.handlers@, x.handlers@.len(), begun)->Ok_0;
        compile_expr_tail(t, &mut inner, &x.body, ctx, false)?;
        let ghost h = reached(inner, *ctx);
        let ghost bc = expr_code(t@, *x.body, i.g, false)->Ok_0.0;
        emit_removes(&mut inner, &removes);
        let ghost rc = Seq::new(i.count, |k: int| Op::Plain(Opcode::Unhandle));
        assert(inner.ops() =~= i.code + bc + rc);
        compile_else(t, &mut inner, &x.else_clause, ctx)?;
        let ghost k = reached(inner, *ctx);
        let ghost ec = else_code(t@, x.else_clause, h)->Ok_0.0;
        inner.emit_plain(Opcode::Return);
        assert(inner.ops() =~= i.code + bc + rc + ec.push(Op::Plain(Opcode::Return)));
        let function = build(&inner.code, inner.next_local, 0)?;
        let caps = inner.get_capture_names_in_order();
        let hash = ctx.register_lambda(function);
        if let Err(name) = load_captures(fc, &caps) {
            let mut feature = owned("unknown capture in handle expression: ");
            push_text(&mut feature, name.as_str());
            return Err(CompileError::unsupported(feature, (0, 0)));
        }
        let n: usize = caps.entries.len();
        fc.emit(Instr::MakeClosure(hash, n as u8));
        fc.emit(Instr::CallClosure(0));
        proof {
            let (loads, _) = captures_code(g.scope, caps@)->Ok_0;
            assert(caps@.len() == n);
            assert(fc.ops() =~= start + (loads + seq![
                Op::MakeClosure(hash@, caps@.len() as u8),
                Op::CallClosure(0),
            ]));
        }
    }
    Ok(())
}

} // verus!
