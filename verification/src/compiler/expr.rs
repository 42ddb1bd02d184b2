//! Compiling expressions: emitting the code that [`crate::compiler::codegen`]
//! gives them.

use vstd::prelude::*;

use crate::ast::{
    BinaryOp, ConstDef, Expr, ExprKind, MatchArm, QualifiedName, ResolvedMethod, Span, Stmt,
    StmtKind, UnaryOp,
};
use crate::bytecode::{Constant, ConstantView};
use crate::compiler::code::{ops, Instr, Op, Opcode};
use crate::compiler::codegen::{
    adapted, arm_rest, arms_code, binary_code, block_code, block_const_code, call_code, call_op,
    closure_call_code, closure_op, constant_of, constructor_text, ended, expr_code, exprs_code,
    failing_past, fields_code, if_code, is_variable, keep_original, kind_code, local_code,
    match_code, method_call_code, name_code, operands_code, operator, short_circuit_code, stmt_code,
    stmts_code, variable_code, with_skip,
};
use crate::compiler::context::{
    captured_name, function_hash, FunctionCompiler, ModuleContext, ModuleTables, TablesView,
};
use crate::compiler::dicts::{
    after, compile_bounded_value_ref, compile_dicts, compiled, dict_count, dict_method_code,
    dicts_code, emit_dict_method, followed, reached, Gen,
};
use crate::compiler::error::CompileError;
use crate::compiler::lambdas::{
    compile_handle_expr, compile_handler_literal, compile_lambda, compile_perform,
};
use crate::compiler::patterns::{
    compile_pattern_match, pattern_code, pattern_fails_inside, PatternCode,
};
use crate::const_eval::literal_value;
use crate::object::value_object;
use crate::text::{owned, push_text};
use crate::wire::Wire;

verus! {

broadcast use vstd::string::group_string_axioms;

impl FunctionCompiler {
    /// Let a jump lead to the instruction that comes next.
    pub fn patch_jump(&mut self, at: usize)
        requires
            at < old(self).ops().len(),
        ensures
            final(self).ops() == old(self).ops().update(
                at as int,
                with_skip(old(self).ops()[at as int], old(self).ops().len() - at - 1),
            ),
            final(self).scope() == old(self).scope(),
    {
        let n: usize = self.here() - at - 1;
        let jump = match &self.code[at] {
            Instr::JumpIfNot(_) => Instr::JumpIfNot(n),
            Instr::JumpIf(_) => Instr::JumpIf(n),
            _ => Instr::Jump(n),
        };
        assert(self.ops()[at as int] == self.code@[at as int]@);
        self.patch(at, jump);
    }
}

// ── names ───────────────────────────────────────────────────────────────────

/// Push a binding.
fn compile_local(fc: &mut FunctionCompiler, id: u32, span: Span, ctx: &ModuleContext) -> (r: Result<
    (),
    CompileError,
>)
    ensures
        compiled(
            local_code(id, span, reached(*old(fc), *ctx)),
            old(fc).ops(),
            r,
            *final(fc),
            *ctx,
        ),
{
    let ghost start = fc.ops();
    if let Some(slot) = fc.captures.get(id) {
        fc.emit(Instr::LoadCapture(slot));
        assert(fc.ops() =~= start + seq![Op::LoadCapture(slot)]);
        return Ok(());
    }
    if fc.is_parent_binding(id) {
        let name = fc.captured_name(id);
        let slot: u16 = fc.get_or_create_capture(id, name.as_str());
        fc.emit(Instr::LoadCapture(slot));
        assert(fc.ops() =~= start + seq![Op::LoadCapture(slot)]);
        return Ok(());
    }
    let slot: u16 = fc.get_local(id, span.as_pair())?;
    fc.emit(Instr::LoadLocal(slot));
    assert(fc.ops() =~= start + seq![Op::LoadLocal(slot)]);
    Ok(())
}

/// Whether a name means a variable.
fn names_variable(fc: &FunctionCompiler, n: &QualifiedName) -> (r: bool)
    ensures
        r == is_variable(fc.scope(), *n),
{
    n.is_bare() && (fc.get_local_by_name(n.name.as_str()).is_some() || fc.capture_names.get(
        n.name.as_str(),
    ).is_some() || fc.is_parent_name(n.name.as_str()))
}

/// Push a variable.
fn compile_variable(fc: &mut FunctionCompiler, name: &str, ctx: &ModuleContext) -> (r: Result<
    (),
    CompileError,
>)
    ensures
        compiled(
            variable_code(name@, reached(*old(fc), *ctx)),
            old(fc).ops(),
            r,
            *final(fc),
            *ctx,
        ),
{
    let ghost start = fc.ops();
    if let Some(slot) = fc.get_local_by_name(name) {
        fc.emit(Instr::LoadLocal(slot));
        assert(fc.ops() =~= start + seq![Op::LoadLocal(slot)]);
        return Ok(());
    }
    let slot: u16 = fc.get_or_create_capture_by_name(name);
    fc.emit(Instr::LoadCapture(slot));
    assert(fc.ops() =~= start + seq![Op::LoadCapture(slot)]);
    Ok(())
}

/// The object of the constant that a name means.
fn find_constant(t: &ModuleTables, fc: &FunctionCompiler, n: &QualifiedName) -> (r: Option<
    crate::digest::Digest,
>)
    ensures
        match constant_of(t@, fc.scope(), *n) {
            Some(h) => r matches Some(d) && d@ == h,
            None => r is None,
        },
{
    if n.is_bare() {
        if let Some(h) = fc.block_const(n.name.as_str()) {
            return Some(h);
        }
    }
    let key = n.resolution_key();
    t.constant_hash(&key)
}

/// The text of the error for a constructor with a payload used as a value.
fn constructor_message(name: &str) -> (r: String)
    ensures
        r@ == constructor_text(name@),
{
    let mut out = owned("constructor `");
    push_text(&mut out, name);
    push_text(&mut out, "` used as a value; apply it: `");
    push_text(&mut out, name);
    push_text(&mut out, "(...)`");
    out
}

/// Push a function as a value.
fn compile_function_value(
    t: &ModuleTables,
    fc: &mut FunctionCompiler,
    expr: &Expr,
    hash: crate::digest::Digest,
    ctx: &mut ModuleContext,
) -> (r: Result<(), CompileError>)
    ensures
        compiled(
            if dict_count(expr.dicts) > 0 {
                crate::compiler::dicts::bounded_value_code(
                    t@,
                    hash@,
                    expr.ty,
                    expr.dicts->0->Resolved_0@,
                    expr.span,
                    reached(*old(fc), *old(ctx)),
                )
            } else {
                followed(
                    dicts_code(t@, expr.dicts, expr.span, reached(*old(fc), *old(ctx))),
                    Op::Push(ConstantView::Function(hash@)),
                )
            },
            old(fc).ops(),
            r,
            *final(fc),
            *final(ctx),
        ),
{
    let ghost start = fc.ops();
    let ghost g = reached(*fc, *ctx);
    if let Some(crate::ast::Dicts::Resolved(sources)) = &expr.dicts {
        if sources.len() > 0 {
            return compile_bounded_value_ref(t, fc, hash, &expr.ty, sources, expr.span, ctx);
        }
    }
    compile_dicts(t, fc, &expr.dicts, expr.span, ctx)?;
    fc.emit(Instr::Push(Constant::Function(hash)));
    proof {
        let code = dicts_code(t@, expr.dicts, expr.span, g)->Ok_0.0;
        assert(fc.ops() =~= start + code.push(Op::Push(ConstantView::Function(hash@))));
    }
    Ok(())
}

/// Push what a name means.
fn compile_name(
    t: &ModuleTables,
    fc: &mut FunctionCompiler,
    expr: &Expr,
    n: &QualifiedName,
    ctx: &mut ModuleContext,
) -> (r: Result<(), CompileError>)
    ensures
        compiled(
            name_code(t@, *expr, *n, reached(*old(fc), *old(ctx))),
            old(fc).ops(),
            r,
            *final(fc),
            *final(ctx),
        ),
{
    let ghost start = fc.ops();
    if names_variable(fc, n) {
        return compile_variable(fc, n.name.as_str(), ctx);
    }
    if let Some(h) = find_constant(t, fc, n) {
        fc.emit(Instr::LoadObject(h));
        assert(fc.ops() =~= start + seq![Op::LoadObject(h@)]);
        return Ok(());
    }
    let key = n.resolution_key();
    if let Some(h) = t.function_hash(&key) {
        if t.thunks.contains_key(&key) {
            fc.emit(Instr::Call(h, 0));
            assert(fc.ops() =~= start + seq![Op::Call(h@, 0)]);
            return Ok(());
        }
        return compile_function_value(t, fc, expr, h, ctx);
    }
    if let Some(v) = t.variant(n) {
        if v.has_payload {
            return Err(
                CompileError::unsupported(
                    constructor_message(n.name.as_str()),
                    expr.span.as_pair(),
                ),
            );
        }
        fc.emit(
            Instr::MakeEnum {
                enum_name: owned(v.enum_name.as_str()),
                tag: v.tag,
                variant: owned(n.name.as_str()),
                has_payload: false,
            },
        );
        assert(fc.ops() =~= start + seq![
            Op::MakeEnum {
                enum_name: v.enum_name@,
                tag: v.tag,
                variant: n.name@,
                has_payload: false,
            },
        ]);
        return Ok(());
    }
    if t.unit_structs.contains_key(&key) {
        fc.emit(Instr::MakeRecord(0));
        assert(fc.ops() =~= start + seq![Op::MakeRecord(0)]);
        return Ok(());
    }
    Err(CompileError::undefined_function(n.name.as_str(), expr.span.as_pair()))
}

// ── expressions ─────────────────────────────────────────────────────────────

/// Compile an expression that is not in tail position.
pub fn compile_expr(
    t: &ModuleTables,
    fc: &mut FunctionCompiler,
    expr: &Expr,
    ctx: &mut ModuleContext,
) -> (r: Result<(), CompileError>)
    ensures
        compiled(
            expr_code(t@, *expr, reached(*old(fc), *old(ctx)), false),
            old(fc).ops(),
            r,
            *final(fc),
            *final(ctx),
        ),
{
    compile_expr_tail(t, fc, expr, ctx, false)
}

/// Compile an expression, in tail position or not.
pub fn compile_expr_tail(
    t: &ModuleTables,
    fc: &mut FunctionCompiler,
    expr: &Expr,
    ctx: &mut ModuleContext,
    tail: bool,
) -> (r: Result<(), CompileError>)
    ensures
        compiled(
            expr_code(t@, *expr, reached(*old(fc), *old(ctx)), tail),
            old(fc).ops(),
            r,
            *final(fc),
            *final(ctx),
        ),
    decreases *expr, 5int, 0int,
{
    let ghost start = fc.ops();
    let ghost g = reached(*fc, *ctx);
    fc.record_span(expr.span);
    compile_kind(t, fc, expr, ctx, tail)?;
    proof {
        let code = kind_code(t@, *expr, g, tail)->Ok_0.0;
        assert(fc.ops() =~= start + (seq![Op::Mark(expr.span)] + code));
    }
    Ok(())
}

/// Compile an expression and append an instruction.
fn compile_followed(
    t: &ModuleTables,
    fc: &mut FunctionCompiler,
    expr: &Expr,
    ctx: &mut ModuleContext,
    instr: Instr,
) -> (r: Result<(), CompileError>)
    ensures
        compiled(
            followed(expr_code(t@, *expr, reached(*old(fc), *old(ctx)), false), instr@),
            old(fc).ops(),
            r,
            *final(fc),
            *final(ctx),
        ),
    decreases *expr, 6int, 0int,
{
    let ghost start = fc.ops();
    let ghost g = reached(*fc, *ctx);
    compile_expr_tail(t, fc, expr, ctx, false)?;
    let ghost last = instr@;
    fc.emit(instr);
    proof {
        let code = expr_code(t@, *expr, g, false)->Ok_0.0;
        assert(fc.ops() =~= start + code.push(last));
    }
    Ok(())
}

/// Compile expressions, one after the other, and append an instruction.
fn compile_all_followed(
    t: &ModuleTables,
    fc: &mut FunctionCompiler,
    exprs: &Vec<Expr>,
    ctx: &mut ModuleContext,
    instr: Instr,
) -> (r: Result<(), CompileError>)
    ensures
        compiled(
            followed(exprs_code(t@, exprs@, reached(*old(fc), *old(ctx))), instr@),
            old(fc).ops(),
            r,
            *final(fc),
            *final(ctx),
        ),
    decreases exprs@, 1int, 0int,
{
    let ghost start = fc.ops();
    let ghost g = reached(*fc, *ctx);
    compile_exprs(t, fc, exprs, ctx)?;
    let ghost last = instr@;
    fc.emit(instr);
    proof {
        let code = exprs_code(t@, exprs@, g)->Ok_0.0;
        assert(fc.ops() =~= start + code.push(last));
    }
    Ok(())
}

/// Push a constant.
fn compile_constant(fc: &mut FunctionCompiler, constant: Constant)
    ensures
        final(fc).ops() == old(fc).ops() + seq![Op::Push(constant@)],
        final(fc).scope() == old(fc).scope(),
{
    let ghost start = fc.ops();
    let ghost view = constant@;
    fc.emit(Instr::Push(constant));
    assert(fc.ops() =~= start + seq![Op::Push(view)]);
}

/// Compile an expression, without the note of where it comes from.
fn compile_kind(
    t: &ModuleTables,
    fc: &mut FunctionCompiler,
    expr: &Expr,
    ctx: &mut ModuleContext,
    tail: bool,
) -> (r: Result<(), CompileError>)
    ensures
        compiled(
            kind_code(t@, *expr, reached(*old(fc), *old(ctx)), tail),
            old(fc).ops(),
            r,
            *final(fc),
            *final(ctx),
        ),
    decreases *expr, 4int, 0int,
{
    match &expr.kind {
        ExprKind::Unit => {
            compile_constant(fc, Constant::Unit);
            Ok(())
        },
        ExprKind::Bool(b) => {
            compile_constant(fc, Constant::Bool(*b));
            Ok(())
        },
        ExprKind::Number(n) => {
            compile_constant(fc, Constant::Number(*n));
            Ok(())
        },
        ExprKind::String(s) => {
            compile_constant(fc, Constant::String(owned(s.as_str())));
            Ok(())
        },
        ExprKind::Local(id) => compile_local(fc, *id, expr.span, ctx),
        ExprKind::Name(n) => compile_name(t, fc, expr, n, ctx),
        ExprKind::Tuple(es) => compile_all_followed(
            t,
            fc,
            es,
            ctx,
            Instr::MakeTuple(es.len() as u8),
        ),
        ExprKind::TupleIndex(tuple, index) => compile_followed(
            t,
            fc,
            tuple,
            ctx,
            Instr::TupleGet(*index as u8),
        ),
        ExprKind::Record(fields) => compile_record(t, fc, fields, ctx),
        ExprKind::TypedRecord { name: _, fields } => compile_record(t, fc, fields, ctx),
        ExprKind::RecordField(record, field) => compile_followed(
            t,
            fc,
            record,
            ctx,
            Instr::RecordGet(owned(field.as_str())),
        ),
        ExprKind::List(es) => compile_all_followed(
            t,
            fc,
            es,
            ctx,
            Instr::MakeList(es.len() as u16),
        ),
        ExprKind::Binary { op: _, left: _, right: _, resolved_op: _ } => compile_binary(
            t,
            fc,
            expr,
            ctx,
            tail,
        ),
        ExprKind::Unary(op, operand) => {
            let opcode = match op {
                UnaryOp::Neg => Opcode::Neg,
                UnaryOp::Not => Opcode::Not,
            };
            compile_followed(t, fc, operand, ctx, Instr::Plain(opcode))
        },
        ExprKind::If(_, _, _) => compile_if(t, fc, expr, ctx, tail),
        ExprKind::Match(_, _) => compile_match(t, fc, expr, ctx, tail),
        ExprKind::Block(_, _) => compile_block(t, fc, expr, ctx, tail),
        ExprKind::Lambda(_) => compile_lambda(t, fc, expr, ctx),
        ExprKind::Call(_, _) => compile_call(t, fc, expr, ctx, tail),
        ExprKind::Perform(_) => compile_perform(t, fc, expr, ctx),
        ExprKind::Handle(_) => compile_handle_expr(t, fc, expr, ctx),
        ExprKind::Resume(value) => {
            let opcode = if tail {
                Opcode::TailResume
            } else {
                Opcode::Resume
            };
            compile_resume(t, fc, value, ctx, opcode)
        },
        ExprKind::HandlerLiteral(_) => compile_handler_literal(t, fc, expr, ctx),
        ExprKind::Sandbox(s) => compile_expr_tail(t, fc, &s.body, ctx, tail),
        ExprKind::MethodCall { receiver: _, method: _, args: _, resolved_method: _ } =>
            compile_method_call(t, fc, expr, ctx, tail),
    }
}

/// Resume a continuation.
fn compile_resume(
    t: &ModuleTables,
    fc: &mut FunctionCompiler,
    value: &Expr,
    ctx: &mut ModuleContext,
    opcode: Opcode,
) -> (r: Result<(), CompileError>)
    ensures
        compiled(
            after(
                seq![Op::LoadLocal(0)],
                followed(
                    expr_code(t@, *value, reached(*old(fc), *old(ctx)), false),
                    Op::Plain(opcode),
                ),
            ),
            old(fc).ops(),
            r,
            *final(fc),
            *final(ctx),
        ),
    decreases *value, 7int, 0int,
{
    let ghost start = fc.ops();
    let ghost g = reached(*fc, *ctx);
    fc.emit(Instr::LoadLocal(0));
    compile_followed(t, fc, value, ctx, Instr::Plain(opcode))?;
    proof {
        let code = expr_code(t@, *value, g, false)->Ok_0.0;
        assert(fc.ops() =~= start + (seq![Op::LoadLocal(0)] + code.push(Op::Plain(opcode))));
    }
    Ok(())
}

proof fn lemma_exprs_fault_stays(t: TablesView, es: Seq<Expr>, g: Gen, k: int)
    requires
        0 <= k <= es.len(),
        exprs_code(t, es.take(k), g) is Err,
    ensures
        exprs_code(t, es, g) == exprs_code(t, es.take(k), g),
    decreases es.len() - k,
{
    if k < es.len() {
        assert(es.take(k + 1).drop_last() =~= es.take(k));
        lemma_exprs_fault_stays(t, es, g, k + 1);
    } else {
        assert(es.take(k) =~= es);
    }
}

/// Compile expressions, one after the other.
pub(crate) fn compile_exprs(
    t: &ModuleTables,
    fc: &mut FunctionCompiler,
    exprs: &Vec<Expr>,
    ctx: &mut ModuleContext,
) -> (r: Result<(), CompileError>)
    ensures
        compiled(
            exprs_code(t@, exprs@, reached(*old(fc), *old(ctx))),
            old(fc).ops(),
            r,
            *final(fc),
            *final(ctx),
        ),
    decreases exprs@, 0int, exprs@.len(),
{
    let ghost start = fc.ops();
    let ghost g = reached(*fc, *ctx);
    let mut i: usize = 0;
    assert(exprs@.take(0) =~= seq![]);
    assert(start + seq![] =~= start);
    while i < exprs.len()
        invariant
            i <= exprs@.len(),
            g == reached(*old(fc), *old(ctx)),
            start == old(fc).ops(),
            exprs_code(t@, exprs@.take(i as int), g) matches Ok((code, h)) && fc.ops() == start
                + code && reached(*fc, *ctx) == h,
        decreases exprs@.len() - i,
    {
        assert(exprs@.take(i + 1).drop_last() =~= exprs@.take(i as int));
        proof {
            if exprs_code(t@, exprs@.take(i + 1), g) is Err {
                lemma_exprs_fault_stays(t@, exprs@, g, i + 1);
            }
            assert(decreases_to!(exprs@ => exprs@[i as int]));
        }
        let ghost done = exprs_code(t@, exprs@.take(i as int), g)->Ok_0;
        compile_expr_tail(t, fc, &exprs[i], ctx, false)?;
        proof {
            let code = expr_code(t@, exprs@[i as int], done.1, false)->Ok_0.0;
            assert(start + done.0 + code =~= start + (done.0 + code));
        }
        i = i + 1;
    }
    assert(exprs@.take(exprs@.len() as int) =~= exprs@);
    Ok(())
}

proof fn lemma_fields_fault_stays(t: TablesView, fs: Seq<(String, Expr)>, g: Gen, k: int)
    requires
        0 <= k <= fs.len(),
        fields_code(t, fs.take(k), g) is Err,
    ensures
        fields_code(t, fs, g) == fields_code(t, fs.take(k), g),
    decreases fs.len() - k,
{
    if k < fs.len() {
        assert(fs.take(k + 1).drop_last() =~= fs.take(k));
        lemma_fields_fault_stays(t, fs, g, k + 1);
    } else {
        assert(fs.take(k) =~= fs);
    }
}

/// Compile a record: each name, then its value.
fn compile_record(
    t: &ModuleTables,
    fc: &mut FunctionCompiler,
    fields: &Vec<(String, Expr)>,
    ctx: &mut ModuleContext,
) -> (r: Result<(), CompileError>)
    ensures
        compiled(
            followed(
                fields_code(t@, fields@, reached(*old(fc), *old(ctx))),
                Op::MakeRecord(fields@.len() as u8),
            ),
            old(fc).ops(),
            r,
            *final(fc),
            *final(ctx),
        ),
    decreases fields@, 0int, fields@.len(),
{
    let ghost start = fc.ops();
    let ghost g = reached(*fc, *ctx);
    let mut i: usize = 0;
    assert(fields@.take(0) =~= seq![]);
    assert(start + seq![] =~= start);
    while i < fields.len()
        invariant
            i <= fields@.len(),
            g == reached(*old(fc), *old(ctx)),
            start == old(fc).ops(),
            fields_code(t@, fields@.take(i as int), g) matches Ok((code, h)) && fc.ops() == start
                + code && reached(*fc, *ctx) == h,
        decreases fields@.len() - i,
    {
        assert(fields@.take(i + 1).drop_last() =~= fields@.take(i as int));
        proof {
            if fields_code(t@, fields@.take(i + 1), g) is Err {
                lemma_fields_fault_stays(t@, fields@, g, i + 1);
            }
            assert(decreases_to!(fields@ => fields@[i as int]));
            assert(decreases_to!(fields@[i as int] => fields@[i as int].1));
        }
        let ghost done = fields_code(t@, fields@.take(i as int), g)->Ok_0;
        let name = owned(fields[i].0.as_str());
        let ghost push = Op::Push(ConstantView::String(name@));
        fc.emit(Instr::Push(Constant::String(name)));
        compile_expr_tail(t, fc, &fields[i].1, ctx, false)?;
        proof {
            let code = expr_code(t@, fields@[i as int].1, done.1, false)->Ok_0.0;
            assert(fc.ops() =~= start + (done.0.push(push) + code));
        }
        i = i + 1;
    }
    assert(fields@.take(fields@.len() as int) =~= fields@);
    fc.emit(Instr::MakeRecord(fields.len() as u8));
    proof {
        let code = fields_code(t@, fields@, g)->Ok_0.0;
        assert(fc.ops() =~= start + code.push(Op::MakeRecord(fields@.len() as u8)));
    }
    Ok(())
}

// ── operators ───────────────────────────────────────────────────────────────

/// The instruction of an operator on built-in values.
fn operator_of(op: BinaryOp) -> (r: Opcode)
    ensures
        r == operator(op),
{
    match op {
        BinaryOp::Add => Opcode::Add,
        BinaryOp::Sub => Opcode::Sub,
        BinaryOp::Mul => Opcode::Mul,
        BinaryOp::Div => Opcode::Div,
        BinaryOp::Mod => Opcode::Mod,
        BinaryOp::Eq => Opcode::Eq,
        BinaryOp::Ne => Opcode::Ne,
        BinaryOp::Lt => Opcode::Lt,
        BinaryOp::Le => Opcode::Le,
        BinaryOp::Gt => Opcode::Gt,
        _ => Opcode::Ge,
    }
}

/// Turn the result of an operator's trait method into the operator's.
fn emit_adapted(fc: &mut FunctionCompiler, op: BinaryOp)
    ensures
        final(fc).ops() == old(fc).ops() + adapted(op),
        final(fc).scope() == old(fc).scope(),
{
    let ghost start = fc.ops();
    match op {
        BinaryOp::Ne => {
            fc.emit_plain(Opcode::Not);
        },
        BinaryOp::Lt | BinaryOp::Le | BinaryOp::Gt | BinaryOp::Ge => {
            fc.emit(Instr::Push(Constant::Number(0)));
            fc.emit_plain(operator_of(op));
        },
        _ => {},
    }
    assert(fc.ops() =~= start + adapted(op));
}

/// Compile the operands of a binary operator.
fn compile_operands(
    t: &ModuleTables,
    fc: &mut FunctionCompiler,
    expr: &Expr,
    ctx: &mut ModuleContext,
) -> (r: Result<(), CompileError>)
    requires
        expr.kind is Binary,
    ensures
        compiled(
            operands_code(t@, *expr, reached(*old(fc), *old(ctx))),
            old(fc).ops(),
            r,
            *final(fc),
            *final(ctx),
        ),
    decreases *expr, 0int, 0int,
{
    let ghost start = fc.ops();
    let ghost g = reached(*fc, *ctx);
    if let ExprKind::Binary { op: _, left, right, resolved_op: _ } = &expr.kind {
        compile_expr_tail(t, fc, left, ctx, false)?;
        let ghost h = reached(*fc, *ctx);
        let ghost lc = expr_code(t@, **left, g, false)->Ok_0.0;
        compile_expr_tail(t, fc, right, ctx, false)?;
        proof {
            let rc = expr_code(t@, **right, h, false)->Ok_0.0;
            assert(fc.ops() =~= start + (lc + rc));
        }
    }
    Ok(())
}

/// Compile `&&` or `||`.
fn compile_short_circuit(
    t: &ModuleTables,
    fc: &mut FunctionCompiler,
    expr: &Expr,
    ctx: &mut ModuleContext,
    tail: bool,
) -> (r: Result<(), CompileError>)
    requires
        expr.kind is Binary,
    ensures
        compiled(
            short_circuit_code(t@, *expr, reached(*old(fc), *old(ctx)), tail),
            old(fc).ops(),
            r,
            *final(fc),
            *final(ctx),
        ),
    decreases *expr, 0int, 0int,
{
    let ghost start = fc.ops();
    let ghost g = reached(*fc, *ctx);
    if let ExprKind::Binary { op, left, right, resolved_op: _ } = &expr.kind {
        compile_expr_tail(t, fc, left, ctx, false)?;
        let ghost h = reached(*fc, *ctx);
        let ghost lc = expr_code(t@, **left, g, false)->Ok_0.0;
        fc.emit_plain(Opcode::Dup);
        let jump: usize = fc.here();
        if *op == BinaryOp::And {
            fc.emit(Instr::JumpIfNot(0));
        } else {
            fc.emit(Instr::JumpIf(0));
        }
        fc.emit_plain(Opcode::Pop);
        compile_expr_tail(t, fc, right, ctx, tail)?;
        fc.patch_jump(jump);
        proof {
            let rc = expr_code(t@, **right, h, tail)->Ok_0.0;
            assert(fc.ops() =~= start + (lc + seq![
                Op::Plain(Opcode::Dup),
                if *op == BinaryOp::And {
                    Op::JumpIfNot(rc.len() + 1int)
                } else {
                    Op::JumpIf(rc.len() + 1int)
                },
                Op::Plain(Opcode::Pop),
            ] + rc));
        }
    }
    Ok(())
}

/// Compile the operands of a binary operator and a call of its trait method.
fn compile_operator_call(
    t: &ModuleTables,
    fc: &mut FunctionCompiler,
    expr: &Expr,
    op: BinaryOp,
    call: Instr,
    ctx: &mut ModuleContext,
) -> (r: Result<(), CompileError>)
    requires
        expr.kind is Binary,
    ensures
        compiled(
            ended(
                operands_code(t@, *expr, reached(*old(fc), *old(ctx))),
                seq![call@] + adapted(op),
            ),
            old(fc).ops(),
            r,
            *final(fc),
            *final(ctx),
        ),
    decreases *expr, 1int, 0int,
{
    let ghost start = fc.ops();
    let ghost g = reached(*fc, *ctx);
    let ghost view = call@;
    compile_operands(t, fc, expr, ctx)?;
    fc.emit(call);
    emit_adapted(fc, op);
    proof {
        let oc = operands_code(t@, *expr, g)->Ok_0.0;
        assert(fc.ops() =~= start + (oc + (seq![view] + adapted(op))));
    }
    Ok(())
}

/// Compile a binary operator on a type parameter.
fn compile_bound_operator(
    t: &ModuleTables,
    fc: &mut FunctionCompiler,
    expr: &Expr,
    op: BinaryOp,
    dict_index: usize,
    slot: usize,
    ctx: &mut ModuleContext,
) -> (r: Result<(), CompileError>)
    requires
        expr.kind is Binary,
    ensures
        compiled(
            match dict_method_code(
                dict_index as nat,
                slot as nat,
                expr.span,
                reached(*old(fc), *old(ctx)),
            ) {
                Err(x) => Err(x),
                Ok((dc, d)) => after(
                    dc,
                    ended(operands_code(t@, *expr, d), seq![Op::CallClosure(2)] + adapted(op)),
                ),
            },
            old(fc).ops(),
            r,
            *final(fc),
            *final(ctx),
        ),
    decreases *expr, 2int, 0int,
{
    let ghost start = fc.ops();
    let ghost g = reached(*fc, *ctx);
    emit_dict_method(fc, dict_index, slot, expr.span, ctx)?;
    let ghost d = reached(*fc, *ctx);
    let ghost dc = dict_method_code(dict_index as nat, slot as nat, expr.span, g)->Ok_0.0;
    compile_operator_call(t, fc, expr, op, Instr::CallClosure(2), ctx)?;
    proof {
        let oc = operands_code(t@, *expr, d)->Ok_0.0;
        let rest = oc + (seq![Op::CallClosure(2)] + adapted(op));
        assert(start + dc + rest =~= start + (dc + rest));
    }
    Ok(())
}

/// Compile a binary operator.
fn compile_binary(
    t: &ModuleTables,
    fc: &mut FunctionCompiler,
    expr: &Expr,
    ctx: &mut ModuleContext,
    tail: bool,
) -> (r: Result<(), CompileError>)
    requires
        expr.kind is Binary,
    ensures
        compiled(
            binary_code(t@, *expr, reached(*old(fc), *old(ctx)), tail),
            old(fc).ops(),
            r,
            *final(fc),
            *final(ctx),
        ),
    decreases *expr, 3int, 0int,
{
    let ghost start = fc.ops();
    let ghost g = reached(*fc, *ctx);
    if let ExprKind::Binary { op, left: _, right: _, resolved_op } = &expr.kind {
        if *op == BinaryOp::And || *op == BinaryOp::Or {
            return compile_short_circuit(t, fc, expr, ctx, tail);
        }
        match resolved_op {
            Some(ResolvedMethod::DictSlot { dict_index, slot }) => {
                return compile_bound_operator(t, fc, expr, *op, *dict_index, *slot, ctx);
            },
            Some(ResolvedMethod::Symbol(symbol)) => match t.symbol_hash(symbol.as_str()) {
                Some(f) => {
                    return compile_operator_call(t, fc, expr, *op, Instr::Call(f, 2), ctx);
                },
                None => {
                    compile_operands(t, fc, expr, ctx)?;
                    return Err(
                        CompileError::undefined_function(symbol.as_str(), expr.span.as_pair()),
                    );
                },
            },
            None => {
                compile_operands(t, fc, expr, ctx)?;
                fc.emit_plain(operator_of(*op));
                proof {
                    let oc = operands_code(t@, *expr, g)->Ok_0.0;
                    assert(fc.ops() =~= start + oc.push(Op::Plain(operator(*op))));
                }
            },
        }
    }
    Ok(())
}

// ── control ─────────────────────────────────────────────────────────────────

/// Compile a conditional.
fn compile_if(
    t: &ModuleTables,
    fc: &mut FunctionCompiler,
    expr: &Expr,
    ctx: &mut ModuleContext,
    tail: bool,
) -> (r: Result<(), CompileError>)
    requires
        expr.kind is If,
    ensures
        compiled(
            if_code(t@, *expr, reached(*old(fc), *old(ctx)), tail),
            old(fc).ops(),
            r,
            *final(fc),
            *final(ctx),
        ),
    decreases *expr, 1int, 0int,
{
    let ghost start = fc.ops();
    let ghost g = reached(*fc, *ctx);
    if let ExprKind::If(cond, yes, no) = &expr.kind {
        compile_expr_tail(t, fc, cond, ctx, false)?;
        let ghost h = reached(*fc, *ctx);
        let ghost cc = expr_code(t@, **cond, g, false)->Ok_0.0;
        let to_else: usize = fc.here();
        fc.emit(Instr::JumpIfNot(0));
        compile_expr_tail(t, fc, yes, ctx, tail)?;
        let ghost k = reached(*fc, *ctx);
        let ghost yc = expr_code(t@, **yes, h, tail)->Ok_0.0;
        let to_end: usize = fc.here();
        fc.emit(Instr::Jump(0));
        fc.patch_jump(to_else);
        let ghost head = start + (cc + seq![Op::JumpIfNot(yc.len() + 1int)] + yc + seq![
            Op::Jump(0),
        ]);
        assert(fc.ops() =~= head);
        let ghost nc: Seq<Op>;
        match no {
            Some(n) => {
                compile_expr_tail(t, fc, n, ctx, tail)?;
                proof {
                    nc = expr_code(t@, **n, k, tail)->Ok_0.0;
                }
            },
            None => {
                compile_constant(fc, Constant::Unit);
                proof {
                    nc = seq![Op::Push(ConstantView::Unit)];
                }
            },
        }
        assert(fc.ops() == head + nc);
        fc.patch_jump(to_end);
        assert(fc.ops() =~= start + (cc + seq![Op::JumpIfNot(yc.len() + 1int)] + yc + seq![
            Op::Jump(nc.len() as int),
        ] + nc));
    }
    Ok(())
}

/// Compile a match.
fn compile_match(
    t: &ModuleTables,
    fc: &mut FunctionCompiler,
    expr: &Expr,
    ctx: &mut ModuleContext,
    tail: bool,
) -> (r: Result<(), CompileError>)
    requires
        expr.kind is Match,
    ensures
        compiled(
            match_code(t@, *expr, reached(*old(fc), *old(ctx)), tail),
            old(fc).ops(),
            r,
            *final(fc),
            *final(ctx),
        ),
    decreases *expr, 1int, 0int,
{
    let ghost start = fc.ops();
    let ghost g = reached(*fc, *ctx);
    if let ExprKind::Match(value, arms) = &expr.kind {
        if arms.len() == 0 {
            return Err(
                CompileError::unsupported(owned("empty match expression"), expr.span.as_pair()),
            );
        }
        compile_expr_tail(t, fc, value, ctx, false)?;
        let ghost h = reached(*fc, *ctx);
        let ghost vc = expr_code(t@, **value, g, false)->Ok_0.0;
        compile_arms(t, fc, arms, 0, ctx, tail)?;
        proof {
            let ac = arms_code(t@, arms@, 0, h, tail)->Ok_0.0;
            assert(fc.ops() =~= start + (vc + ac));
        }
    }
    Ok(())
}

/// Compile the guard of an arm, and say where the jump is that is taken where it
/// fails.
fn compile_guard(
    t: &ModuleTables,
    fc: &mut FunctionCompiler,
    guard: &Option<Expr>,
    ctx: &mut ModuleContext,
) -> (r: Result<Option<usize>, CompileError>)
    ensures
        match *guard {
            None => r matches Ok(None) && final(fc).ops() == old(fc).ops() && reached(
                *final(fc),
                *final(ctx),
            ) == reached(*old(fc), *old(ctx)),
            Some(c) => match expr_code(t@, c, reached(*old(fc), *old(ctx)), false) {
                Err(e) => r matches Err(f) && f@ == e,
                Ok((gc, k)) => r matches Ok(Some(at)) && at == old(fc).ops().len() + gc.len()
                    && final(fc).ops() == old(fc).ops() + gc + seq![Op::JumpIfNot(0)] && reached(
                    *final(fc),
                    *final(ctx),
                ) == k,
            },
        },
    decreases *guard, 5int, 0int,
{
    let ghost start = fc.ops();
    let ghost g = reached(*fc, *ctx);
    match guard {
        None => Ok(None),
        Some(c) => {
            compile_expr_tail(t, fc, c, ctx, false)?;
            let at: usize = fc.here();
            fc.emit(Instr::JumpIfNot(0));
            proof {
                let gc = expr_code(t@, *c, g, false)->Ok_0.0;
                assert(fc.ops() =~= start + gc + seq![Op::JumpIfNot(0)]);
            }
            Ok(Some(at))
        },
    }
}

/// Whether an arm is closed: what follows its body stands behind `head`, the
/// pattern's jump leads to the next arm, and `end` is where the jump is that
/// skips the other arms.
pub open spec fn arm_closed(
    head: Seq<Op>,
    fail: Option<int>,
    guard: Option<Seq<Op>>,
    body: Seq<Op>,
    closed: Seq<Op>,
    end: Option<usize>,
) -> bool {
    let rest = arm_rest(guard, fail is Some, body, 0);
    let opened = match fail {
        Some(f) => head.update(f, with_skip(head[f], head.len() - f - 1 + rest.len())),
        None => head,
    };
    &&& closed == opened + rest
    &&& match end {
        Some(e) => head.len() <= e < closed.len() && rest[e - head.len()] is Jump && (forall|n: nat|
            (#[trigger] arm_rest(guard, fail is Some, body, n)) == rest.update(
                e - head.len(),
                Op::Jump(closed.len() - e - 1 + n),
            )),
        None => forall|n: nat| (#[trigger] arm_rest(guard, fail is Some, body, n)) == rest,
    }
}

/// Close an arm: what follows its body, up to the next arm. Say where the jump
/// is that skips the other arms.
fn close_arm(
    fc: &mut FunctionCompiler,
    fail: Option<usize>,
    guard: Option<usize>,
    head: Ghost<Seq<Op>>,
    guard_code: Ghost<Option<Seq<Op>>>,
    body: Ghost<Seq<Op>>,
) -> (r: Option<usize>)
    requires
        fail matches Some(f) ==> f < head@.len(),
        (guard is Some) == (guard_code@ is Some),
        guard matches Some(k) ==> k == head@.len() + guard_code@->0.len(),
        old(fc).ops() == head@ + (match guard_code@ {
            Some(gc) => gc + seq![Op::JumpIfNot(0)],
            None => seq![],
        }) + body@,
    ensures
        final(fc).scope() == old(fc).scope(),
        arm_closed(
            head@,
            match fail {
                Some(f) => Some(f as int),
                None => None,
            },
            guard_code@,
            body@,
            final(fc).ops(),
            r,
        ),
{
    let ghost rest = arm_rest(guard_code@, fail is Some, body@, 0);
    let mut end: Option<usize> = None;
    if fail.is_some() || guard.is_some() {
        end = Some(fc.here());
        if fail.is_some() {
            fc.emit(Instr::Jump(0));
        } else {
            fc.emit(Instr::Jump(1));
        }
    }
    if let Some(k) = guard {
        fc.patch_jump(k);
        if fail.is_none() {
            fc.emit(Instr::Push(Constant::Unit));
        }
    }
    assert(fc.ops() =~= head@ + rest);
    if let Some(f) = fail {
        fc.patch_jump(f);
    }
    proof {
        let opened = match fail {
            Some(f) => head@.update(
                f as int,
                with_skip(head@[f as int], head@.len() - f - 1 + rest.len()),
            ),
            None => head@,
        };
        assert(fc.ops() =~= opened + rest);
        assert forall|n: nat|
            (#[trigger] arm_rest(guard_code@, fail is Some, body@, n)) == match end {
                Some(e) => rest.update(
                    e - head@.len(),
                    Op::Jump(head@.len() + rest.len() - e - 1 + n),
                ),
                None => rest,
            } by {
            assert(arm_rest(guard_code@, fail is Some, body@, n) =~= match end {
                Some(e) => rest.update(
                    e - head@.len(),
                    Op::Jump(head@.len() + rest.len() - e - 1 + n),
                ),
                None => rest,
            });
        }
    }
    end
}

/// Compile the arms of a match from an arm on.
fn compile_arms(
    t: &ModuleTables,
    fc: &mut FunctionCompiler,
    arms: &Vec<MatchArm>,
    i: usize,
    ctx: &mut ModuleContext,
    tail: bool,
) -> (r: Result<(), CompileError>)
    ensures
        compiled(
            arms_code(t@, arms@, i as nat, reached(*old(fc), *old(ctx)), tail),
            old(fc).ops(),
            r,
            *final(fc),
            *final(ctx),
        ),
    decreases arms@, 0int, arms@.len() - i,
{
    let ghost start = fc.ops();
    let ghost g = reached(*fc, *ctx);
    if i >= arms.len() {
        assert(start + seq![] =~= start);
        return Ok(());
    }
    let is_last = i == arms.len() - 1;
    let arm = &arms[i];
    if !is_last {
        fc.emit_plain(Opcode::Dup);
    }
    let ghost before = fc.ops();
    assert(before =~= start + keep_original(is_last));
    let fail = compile_pattern_match(t, fc, &arm.pattern, is_last)?;
    let ghost p = pattern_code(t@, arm.pattern, is_last, g.scope)->Ok_0;
    proof {
        pattern_fails_inside(t@, arm.pattern, is_last, g.scope);
        assert(decreases_to!(arms@ => arms@[i as int]));
        assert(decreases_to!(arms@[i as int] => arms@[i as int].body));
        assert(decreases_to!(arms@[i as int] => arms@[i as int].guard));
    }
    let ghost head = fc.ops();
    let ghost h = reached(*fc, *ctx);
    let guard = compile_guard(t, fc, &arm.guard, ctx)?;
    let ghost k = reached(*fc, *ctx);
    let ghost guard_code: Option<Seq<Op>> = match &arm.guard {
        Some(c) => Some(expr_code(t@, *c, h, false)->Ok_0.0),
        None => None,
    };
    let ghost guarded = fc.ops();
    compile_expr_tail(t, fc, &arm.body, ctx, tail)?;
    let ghost m = reached(*fc, *ctx);
    let ghost body = expr_code(t@, arm.body, k, tail)->Ok_0.0;
    proof {
        assert(fc.ops() =~= head + (match guard_code {
            Some(gc) => gc + seq![Op::JumpIfNot(0)],
            None => seq![],
        }) + body);
    }
    let end = close_arm(fc, fail, guard, Ghost(head), Ghost(guard_code), Ghost(body));
    let ghost closed = fc.ops();
    compile_arms(t, fc, arms, i + 1, ctx, tail)?;
    let ghost others = arms_code(t@, arms@, (i + 1) as nat, m, tail)->Ok_0.0;
    if let Some(e) = end {
        fc.patch_jump(e);
    }
    proof {
        lemma_arm_closed(start, is_last, p, guard_code, body, others, closed, end);
    }
    Ok(())
}

proof fn lemma_arm_closed(
    start: Seq<Op>,
    is_last: bool,
    p: PatternCode,
    guard: Option<Seq<Op>>,
    body: Seq<Op>,
    others: Seq<Op>,
    closed: Seq<Op>,
    end: Option<usize>,
)
    requires
        p.fail matches Some(i) ==> 0 <= i < p.code.len(),
        ({
            let head = start + keep_original(is_last) + p.code;
            arm_closed(
                head,
                match p.fail {
                    Some(i) => Some(start.len() + keep_original(is_last).len() + i),
                    None => None,
                },
                guard,
                body,
                closed,
                end,
            )
        }),
    ensures
        ({
            let rest = arm_rest(guard, p.fail is Some, body, others.len());
            let opened = keep_original(is_last) + failing_past(p, rest.len());
            let all = closed + others;
            (match end {
                Some(e) => all.update(e as int, with_skip(all[e as int], all.len() - e - 1)),
                None => all,
            }) == start + (opened + rest + others)
        }),
{
    let head = start + keep_original(is_last) + p.code;
    let rest = arm_rest(guard, p.fail is Some, body, 0);
    let now = arm_rest(guard, p.fail is Some, body, others.len());
    let opened = keep_original(is_last) + failing_past(p, now.len());
    let all = closed + others;
    assert(now.len() == rest.len());
    assert(closed =~= start + opened + rest);
    match end {
        Some(e) => {
            assert(all.update(e as int, with_skip(all[e as int], all.len() - e - 1)) =~= start + (
            opened + now + others));
        },
        None => {
            assert(all =~= start + (opened + now + others));
        },
    }
}

// ── blocks ──────────────────────────────────────────────────────────────────

/// Compile a block.
fn compile_block(
    t: &ModuleTables,
    fc: &mut FunctionCompiler,
    expr: &Expr,
    ctx: &mut ModuleContext,
    tail: bool,
) -> (r: Result<(), CompileError>)
    requires
        expr.kind is Block,
    ensures
        compiled(
            block_code(t@, *expr, reached(*old(fc), *old(ctx)), tail),
            old(fc).ops(),
            r,
            *final(fc),
            *final(ctx),
        ),
    decreases *expr, 1int, 0int,
{
    let ghost start = fc.ops();
    let ghost g = reached(*fc, *ctx);
    if let ExprKind::Block(stmts, result) = &expr.kind {
        compile_stmts(t, fc, stmts, ctx)?;
        let ghost h = reached(*fc, *ctx);
        let ghost sc = stmts_code(t@, stmts@, g)->Ok_0.0;
        match result {
            Some(e) => {
                compile_expr_tail(t, fc, e, ctx, tail)?;
                proof {
                    let rc = expr_code(t@, **e, h, tail)->Ok_0.0;
                    assert(fc.ops() =~= start + (sc + rc));
                }
            },
            None => {
                fc.emit(Instr::Push(Constant::Unit));
                assert(fc.ops() =~= start + sc.push(Op::Push(ConstantView::Unit)));
            },
        }
    }
    Ok(())
}

proof fn lemma_stmts_fault_stays(t: TablesView, ss: Seq<Stmt>, g: Gen, k: int)
    requires
        0 <= k <= ss.len(),
        stmts_code(t, ss.take(k), g) is Err,
    ensures
        stmts_code(t, ss, g) == stmts_code(t, ss.take(k), g),
    decreases ss.len() - k,
{
    if k < ss.len() {
        assert(ss.take(k + 1).drop_last() =~= ss.take(k));
        lemma_stmts_fault_stays(t, ss, g, k + 1);
    } else {
        assert(ss.take(k) =~= ss);
    }
}

/// Compile statements, one after the other.
fn compile_stmts(
    t: &ModuleTables,
    fc: &mut FunctionCompiler,
    stmts: &Vec<Stmt>,
    ctx: &mut ModuleContext,
) -> (r: Result<(), CompileError>)
    ensures
        compiled(
            stmts_code(t@, stmts@, reached(*old(fc), *old(ctx))),
            old(fc).ops(),
            r,
            *final(fc),
            *final(ctx),
        ),
    decreases stmts@, 0int, stmts@.len(),
{
    let ghost start = fc.ops();
    let ghost g = reached(*fc, *ctx);
    let mut i: usize = 0;
    assert(stmts@.take(0) =~= seq![]);
    assert(start + seq![] =~= start);
    while i < stmts.len()
        invariant
            i <= stmts@.len(),
            g == reached(*old(fc), *old(ctx)),
            start == old(fc).ops(),
            stmts_code(t@, stmts@.take(i as int), g) matches Ok((code, h)) && fc.ops() == start
                + code && reached(*fc, *ctx) == h,
        decreases stmts@.len() - i,
    {
        assert(stmts@.take(i + 1).drop_last() =~= stmts@.take(i as int));
        proof {
            if stmts_code(t@, stmts@.take(i + 1), g) is Err {
                lemma_stmts_fault_stays(t@, stmts@, g, i + 1);
            }
            assert(decreases_to!(stmts@ => stmts@[i as int]));
        }
        let ghost done = stmts_code(t@, stmts@.take(i as int), g)->Ok_0;
        compile_stmt(t, fc, &stmts[i], ctx)?;
        proof {
            let code = stmt_code(t@, stmts@[i as int], done.1)->Ok_0.0;
            assert(start + done.0 + code =~= start + (done.0 + code));
        }
        i = i + 1;
    }
    assert(stmts@.take(stmts@.len() as int) =~= stmts@);
    Ok(())
}

/// Bind a constant of a block.
fn compile_block_const(fc: &mut FunctionCompiler, c: &ConstDef, ctx: &mut ModuleContext) -> (r:
    Result<(), CompileError>)
    ensures
        compiled(
            block_const_code(*c, reached(*old(fc), *old(ctx))),
            old(fc).ops(),
            r,
            *final(fc),
            *final(ctx),
        ),
{
    assert(fc.ops() + seq![] =~= fc.ops());
    let ghost was = ctx@;
    if let Some(value) = literal_value(&c.value) {
        let object = match value_object(&value) {
            Ok(o) => o,
            Err(_) => {
                return Err(
                    CompileError::internal(
                        "const value could not be content-addressed",
                        c.value.span.as_pair(),
                    ),
                );
            },
        };
        let hash = object.hash();
        let ghost content = object.content();
        ctx.const_objects.insert(hash, object);
        fc.set_block_const(c.name.as_str(), hash);
        assert(ctx@.const_objects =~= was.const_objects.insert(hash@, content));
    }
    Ok(())
}

/// Compile a statement.
fn compile_stmt(
    t: &ModuleTables,
    fc: &mut FunctionCompiler,
    stmt: &Stmt,
    ctx: &mut ModuleContext,
) -> (r: Result<(), CompileError>)
    ensures
        compiled(
            stmt_code(t@, *stmt, reached(*old(fc), *old(ctx))),
            old(fc).ops(),
            r,
            *final(fc),
            *final(ctx),
        ),
    decreases *stmt, 1int, 0int,
{
    let ghost start = fc.ops();
    let ghost g = reached(*fc, *ctx);
    match &stmt.kind {
        StmtKind::Let(b) => {
            compile_expr_tail(t, fc, &b.init, ctx, false)?;
            let ghost code = expr_code(t@, b.init, g, false)->Ok_0.0;
            let slot: u16 = fc.alloc_local_with_name(b.id, b.name.as_str())?;
            fc.emit(Instr::StoreLocal(slot));
            assert(fc.ops() =~= start + code.push(Op::StoreLocal(slot)));
            Ok(())
        },
        StmtKind::Expr(e) => compile_followed(t, fc, e, ctx, Instr::Plain(Opcode::Pop)),
        StmtKind::Use(_) => {
            assert(start + seq![] =~= start);
            Ok(())
        },
        StmtKind::Const(c) => compile_block_const(fc, c, ctx),
    }
}

// ── calls ───────────────────────────────────────────────────────────────────

/// An instruction that calls a function.
fn call_instr(h: crate::digest::Digest, n: u8, tail: bool) -> (r: Instr)
    ensures
        r@ == call_op(h@, n, tail),
{
    if tail {
        Instr::TailCall(h, n)
    } else {
        Instr::Call(h, n)
    }
}

/// An instruction that calls a closure.
fn closure_instr(n: u8, tail: bool) -> (r: Instr)
    ensures
        r@ == closure_op(n, tail),
{
    if tail {
        Instr::TailCallClosure(n)
    } else {
        Instr::CallClosure(n)
    }
}

/// Compile a call of a closure.
fn compile_closure_call(
    t: &ModuleTables,
    fc: &mut FunctionCompiler,
    expr: &Expr,
    ctx: &mut ModuleContext,
    tail: bool,
) -> (r: Result<(), CompileError>)
    requires
        expr.kind is Call,
    ensures
        compiled(
            closure_call_code(t@, *expr, reached(*old(fc), *old(ctx)), tail),
            old(fc).ops(),
            r,
            *final(fc),
            *final(ctx),
        ),
    decreases *expr, 0int, 0int,
{
    let ghost start = fc.ops();
    let ghost g = reached(*fc, *ctx);
    if let ExprKind::Call(callee, args) = &expr.kind {
        compile_expr_tail(t, fc, callee, ctx, false)?;
        let ghost h = reached(*fc, *ctx);
        let ghost cc = expr_code(t@, **callee, g, false)->Ok_0.0;
        compile_all_followed(t, fc, args, ctx, closure_instr(args.len() as u8, tail))?;
        proof {
            let ac = exprs_code(t@, args@, h)->Ok_0.0;
            let op = closure_op(args@.len() as u8, tail);
            assert(fc.ops() =~= start + (cc + ac.push(op)));
        }
    }
    Ok(())
}

/// Compile a call of a function by its hash.
fn compile_direct_call(
    t: &ModuleTables,
    fc: &mut FunctionCompiler,
    callee: &Expr,
    args: &Vec<Expr>,
    hash: crate::digest::Digest,
    ctx: &mut ModuleContext,
    tail: bool,
) -> (r: Result<(), CompileError>)
    ensures
        compiled(
            match exprs_code(t@, args@, reached(*old(fc), *old(ctx))) {
                Err(x) => Err(x),
                Ok((ac, h)) => after(
                    ac,
                    followed(
                        dicts_code(t@, callee.dicts, callee.span, h),
                        call_op(hash@, (args@.len() + dict_count(callee.dicts)) as u8, tail),
                    ),
                ),
            },
            old(fc).ops(),
            r,
            *final(fc),
            *final(ctx),
        ),
    decreases args@, 2int, 0int,
{
    let ghost start = fc.ops();
    let ghost g = reached(*fc, *ctx);
    compile_exprs(t, fc, args, ctx)?;
    let ghost h = reached(*fc, *ctx);
    let ghost ac = exprs_code(t@, args@, g)->Ok_0.0;
    let dicts: usize = compile_dicts(t, fc, &callee.dicts, callee.span, ctx)?;
    let ghost dc = dicts_code(t@, callee.dicts, callee.span, h)->Ok_0.0;
    let count: u128 = args.len() as u128 + dicts as u128;
    let instr = call_instr(hash, count as u8, tail);
    let ghost op = instr@;
    fc.emit(instr);
    assert(fc.ops() =~= start + (ac + dc.push(op)));
    Ok(())
}

/// Compile a call.
fn compile_call(
    t: &ModuleTables,
    fc: &mut FunctionCompiler,
    expr: &Expr,
    ctx: &mut ModuleContext,
    tail: bool,
) -> (r: Result<(), CompileError>)
    requires
        expr.kind is Call,
    ensures
        compiled(
            call_code(t@, *expr, reached(*old(fc), *old(ctx)), tail),
            old(fc).ops(),
            r,
            *final(fc),
            *final(ctx),
        ),
    decreases *expr, 1int, 0int,
{
    if let ExprKind::Call(callee, args) = &expr.kind {
        if let ExprKind::Name(n) = &callee.kind {
            let key = n.resolution_key();
            if let Some(h) = t.function_hash(&key) {
                return compile_direct_call(t, fc, callee, args, h, ctx, tail);
            }
            if names_variable(fc, n) {
                return compile_closure_call(t, fc, expr, ctx, tail);
            }
            if let Some(v) = t.variant(n) {
                if !v.has_payload || args.len() != 1 {
                    return Err(
                        CompileError::internal(
                            "enum constructor arity mismatch (checker bug)",
                            callee.span.as_pair(),
                        ),
                    );
                }
                return compile_followed(
                    t,
                    fc,
                    &args[0],
                    ctx,
                    Instr::MakeEnum {
                        enum_name: owned(v.enum_name.as_str()),
                        tag: v.tag,
                        variant: owned(n.name.as_str()),
                        has_payload: true,
                    },
                );
            }
            if !n.is_bare() {
                let name = n.joined();
                return Err(
                    CompileError::undefined_function(name.as_str(), callee.span.as_pair()),
                );
            }
        }
    }
    compile_closure_call(t, fc, expr, ctx, tail)
}

/// Compile a method call.
fn compile_method_call(
    t: &ModuleTables,
    fc: &mut FunctionCompiler,
    expr: &Expr,
    ctx: &mut ModuleContext,
    tail: bool,
) -> (r: Result<(), CompileError>)
    requires
        expr.kind is MethodCall,
    ensures
        compiled(
            method_call_code(t@, *expr, reached(*old(fc), *old(ctx)), tail),
            old(fc).ops(),
            r,
            *final(fc),
            *final(ctx),
        ),
    decreases *expr, 1int, 0int,
{
    let ghost start = fc.ops();
    let ghost g = reached(*fc, *ctx);
    match &expr.kind {
        ExprKind::MethodCall { receiver, method: _, args, resolved_method } => {
            match resolved_method {
                Some(ResolvedMethod::Symbol(symbol)) => {
                    let hash = match t.symbol_hash(symbol.as_str()) {
                        Some(f) => f,
                        None => {
                            return Err(
                                CompileError::undefined_function(
                                    symbol.as_str(),
                                    expr.span.as_pair(),
                                ),
                            );
                        },
                    };
                    compile_expr_tail(t, fc, receiver, ctx, false)?;
                    let ghost h = reached(*fc, *ctx);
                    let ghost rc = expr_code(t@, **receiver, g, false)->Ok_0.0;
                    compile_exprs(t, fc, args, ctx)?;
                    let ghost k = reached(*fc, *ctx);
                    let ghost ac = exprs_code(t@, args@, h)->Ok_0.0;
                    let dicts: usize = compile_dicts(t, fc, &expr.dicts, expr.span, ctx)?;
                    let ghost dc = dicts_code(t@, expr.dicts, expr.span, k)->Ok_0.0;
                    let count: u128 = 1 + args.len() as u128 + dicts as u128;
                    let instr = call_instr(hash, count as u8, tail);
                    let ghost op = instr@;
                    fc.emit(instr);
                    assert(fc.ops() =~= start + (rc + ac + dc.push(op)));
                    Ok(())
                },
                Some(ResolvedMethod::DictSlot { dict_index, slot }) => {
                    emit_dict_method(fc, *dict_index, *slot, expr.span, ctx)?;
                    let ghost d = reached(*fc, *ctx);
                    let ghost mc = dict_method_code(
                        *dict_index as nat,
                        *slot as nat,
                        expr.span,
                        g,
                    )->Ok_0.0;
                    compile_expr_tail(t, fc, receiver, ctx, false)?;
                    let ghost h = reached(*fc, *ctx);
                    let ghost rc = expr_code(t@, **receiver, d, false)->Ok_0.0;
                    compile_exprs(t, fc, args, ctx)?;
                    let ghost k = reached(*fc, *ctx);
                    let ghost ac = exprs_code(t@, args@, h)->Ok_0.0;
                    let dicts: usize = compile_dicts(t, fc, &expr.dicts, expr.span, ctx)?;
                    let ghost dc = dicts_code(t@, expr.dicts, expr.span, k)->Ok_0.0;
                    let count: u128 = 1 + args.len() as u128 + dicts as u128;
                    let instr = closure_instr(count as u8, tail);
                    let ghost op = instr@;
                    fc.emit(instr);
                    assert(fc.ops() =~= start + (mc + rc + ac + dc.push(op)));
                    Ok(())
                },
                None => Err(
                    CompileError::internal(
                        "method call missing resolved symbol",
                        expr.span.as_pair(),
                    ),
                ),
            }
        },
        _ => Ok(()),
    }
}

} // verus!
