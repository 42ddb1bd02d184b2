//! The code of expressions.
//!
//! Every expression has code that leaves its value on the stack. The code is
//! given here as a list of instructions, and a jump by the number of
//! instructions that it skips, so the code of an expression does not depend on
//! where it stands. An expression in tail position gives the value of the
//! enclosing function: a call there takes the place of its caller.

use vstd::prelude::*;

use crate::ast::{
    name_key, BinaryOp, ConstDef, Expr, ExprKind, HandlerLiteralMethod, MatchArm, Param,
    QualifiedName, ResolvedMethod, Span, Stmt, StmtKind, UnaryOp,
};
use crate::bytecode::{ConstantView, FunctionView, MethodView};
use crate::compiler::code::{Op, Opcode};
use crate::compiler::context::{
    ability_by_id, ability_of, assoc_get, assoc_set, binding_capture_slot, bound_to, by_slot,
    capture_slot, captured_name, closure_scope, counted, function_hash, impl_symbol,
    is_parent_binding, is_parent_name, lambda_hash, method_from, variant_of, with_binding_capture,
    with_capture, with_lambda, with_local, AbilityView, Produced, Scope, TablesView,
};
use crate::compiler::dicts::{
    after, bounded_value_code, built, built_under, dict_count, dict_method_code, dicts_code,
    error_at, followed, internal_at, Code, Gen,
};
use crate::compiler::error::{ErrorView, KindView};
use crate::compiler::patterns::{pattern_code, PatternCode};
use crate::const_eval::literal;
use crate::fqn::KeyView;
use crate::object::{object_hash, stored_value, ObjectView};
use crate::text::decimal_text;
use crate::types::{AbilityId, Type};

verus! {

// ── names ───────────────────────────────────────────────────────────────────

/// Code that pushes a binding: a local, or a captured value of the enclosing
/// function.
pub open spec fn local_code(id: u32, span: Span, g: Gen) -> Code {
    let s = g.scope;
    if let Some(slot) = assoc_get(s.captures, id) {
        Ok((seq![Op::LoadCapture(slot)], g))
    } else if is_parent_binding(s, id) {
        Ok(
            (
                seq![Op::LoadCapture(binding_capture_slot(s, id))],
                Gen { scope: with_binding_capture(s, id, captured_name(s, id)), ..g },
            ),
        )
    } else {
        match assoc_get(s.locals, id) {
            Some(slot) => Ok((seq![Op::LoadLocal(slot)], g)),
            None => Err(error_at(KindView::UndefinedLocal { id }, span)),
        }
    }
}

/// Whether a name means a variable: a local, or one of the enclosing function.
pub open spec fn is_variable(s: Scope, n: QualifiedName) -> bool {
    n.bare() && (assoc_get(s.local_names, n.name@) is Some || assoc_get(
        s.capture_names,
        n.name@,
    ) is Some || is_parent_name(s, n.name@))
}

/// Code that pushes a variable.
pub open spec fn variable_code(name: Seq<char>, g: Gen) -> Code {
    let s = g.scope;
    match assoc_get(s.local_names, name) {
        Some(slot) => Ok((seq![Op::LoadLocal(slot)], g)),
        None => Ok(
            (
                seq![Op::LoadCapture(capture_slot(s, name))],
                Gen { scope: with_capture(s, name), ..g },
            ),
        ),
    }
}

/// The object of the constant that a name means: of a block, else of a module.
pub open spec fn constant_of(t: TablesView, s: Scope, n: QualifiedName) -> Option<Seq<u8>> {
    if n.bare() && assoc_get(s.block_consts, n.name@) is Some {
        assoc_get(s.block_consts, n.name@)
    } else {
        bound_to(t.const_hashes, name_key(n))
    }
}

/// The text of the error for a constructor with a payload used as a value.
pub open spec fn constructor_text(name: Seq<char>) -> Seq<char> {
    "constructor `"@ + name + "` used as a value; apply it: `"@ + name + "(...)`"@
}

/// Code that pushes what a name means: a variable, a constant, a function, a
/// variant, or a struct that is a value.
pub open spec fn name_code(t: TablesView, e: Expr, n: QualifiedName, g: Gen) -> Code {
    if is_variable(g.scope, n) {
        variable_code(n.name@, g)
    } else if let Some(h) = constant_of(t, g.scope, n) {
        Ok((seq![Op::LoadObject(h)], g))
    } else if let Some(h) = function_hash(t, name_key(n)) {
        if t.thunks.contains(name_key(n)) {
            Ok((seq![Op::Call(h, 0)], g))
        } else if dict_count(e.dicts) > 0 {
            bounded_value_code(t, h, e.ty, e.dicts->0->Resolved_0@, e.span, g)
        } else {
            followed(dicts_code(t, e.dicts, e.span, g), Op::Push(ConstantView::Function(h)))
        }
    } else if let Some(v) = variant_of(t, n) {
        if v.has_payload {
            Err(
                error_at(KindView::Unsupported { feature: constructor_text(n.name@) }, e.span),
            )
        } else {
            Ok(
                (
                    seq![
                        Op::MakeEnum {
                            enum_name: v.enum_name,
                            tag: v.tag,
                            variant: n.name@,
                            has_payload: false,
                        },
                    ],
                    g,
                ),
            )
        }
    } else if t.unit_structs.contains(name_key(n)) {
        Ok((seq![Op::MakeRecord(0)], g))
    } else {
        Err(error_at(KindView::UndefinedFunction { name: n.name@ }, e.span))
    }
}

// ── operators ───────────────────────────────────────────────────────────────

/// The instruction of an operator on built-in values.
pub open spec fn operator(op: BinaryOp) -> Opcode {
    match op {
        BinaryOp::Add => Opcode::Add,
        BinaryOp::Sub => Opcode::Sub,
        BinaryOp::Mul => Opcode::Mul,
        BinaryOp::Div => Opcode::Div,
        BinaryOp::Mod => Opcode::Mod,
        BinaryOp::Eq => Opcode::Eq,
        BinaryOp::Ne => Opcode::Ne,
        BinaryOp::Lt => Opcode::Lt,
        BinaryOp::Le => Opcode::Le,
        BinaryOp::Gt => Opcode::Gt,
        _ => Opcode::Ge,
    }
}

/// What turns the result of an operator's trait method into the operator's: `!=`
/// is the negation of equality, and an ordering is told from the sign of a
/// comparison.
pub open spec fn adapted(op: BinaryOp) -> Seq<Op> {
    match op {
        BinaryOp::Ne => seq![Op::Plain(Opcode::Not)],
        BinaryOp::Lt => seq![Op::Push(ConstantView::Number(0)), Op::Plain(Opcode::Lt)],
        BinaryOp::Le => seq![Op::Push(ConstantView::Number(0)), Op::Plain(Opcode::Le)],
        BinaryOp::Gt => seq![Op::Push(ConstantView::Number(0)), Op::Plain(Opcode::Gt)],
        BinaryOp::Ge => seq![Op::Push(ConstantView::Number(0)), Op::Plain(Opcode::Ge)],
        _ => seq![],
    }
}

/// An instruction that calls a function, in tail position in place of the
/// caller.
pub open spec fn call_op(h: Seq<u8>, n: u8, tail: bool) -> Op {
    if tail {
        Op::TailCall(h, n)
    } else {
        Op::Call(h, n)
    }
}

/// An instruction that calls a closure, in tail position in place of the
/// caller.
pub open spec fn closure_op(n: u8, tail: bool) -> Op {
    if tail {
        Op::TailCallClosure(n)
    } else {
        Op::CallClosure(n)
    }
}

/// Code with instructions behind it.
pub open spec fn ended(first: Code, rest: Seq<Op>) -> Code {
    match first {
        Ok((code, g)) => Ok((code + rest, g)),
        Err(e) => Err(e),
    }
}

// ── closures ────────────────────────────────────────────────────────────────

/// A scope with locals for parameters.
pub open spec fn with_params(s: Scope, params: Seq<Param>) -> Result<Scope, ErrorView>
    decreases params.len(),
{
    if params.len() == 0 {
        Ok(s)
    } else {
        match with_params(s, params.drop_last()) {
            Err(e) => Err(e),
            Ok(before) => with_local(before, params.last().id, params.last().name@),
        }
    }
}

/// Code that pushes the values that a closure captures, or the name of one that
/// is not in scope. What comes from further out the function captures in turn.
pub open spec fn captures_code(s: Scope, caps: Seq<(Seq<char>, u16)>) -> Result<
    (Seq<Op>, Scope),
    Seq<char>,
>
    decreases caps.len(),
{
    if caps.len() == 0 {
        Ok((seq![], s))
    } else {
        match captures_code(s, caps.drop_last()) {
            Err(n) => Err(n),
            Ok((code, now)) => {
                let name = caps.last().0;
                if let Some(slot) = assoc_get(now.local_names, name) {
                    Ok((code.push(Op::LoadLocal(slot)), now))
                } else if assoc_get(now.capture_names, name) is Some || is_parent_name(now, name) {
                    Ok(
                        (
                            code.push(Op::LoadCapture(capture_slot(now, name))),
                            with_capture(now, name),
                        ),
                    )
                } else {
                    Err(name)
                }
            },
        }
    }
}

/// Code that pushes values in a closure, which captures them where they are not
/// its own.
pub open spec fn through_code(s: Scope, caps: Seq<(Seq<char>, u16)>) -> (Seq<Op>, Scope)
    decreases caps.len(),
{
    if caps.len() == 0 {
        (seq![], s)
    } else {
        let (code, now) = through_code(s, caps.drop_last());
        let name = caps.last().0;
        if let Some(slot) = assoc_get(now.local_names, name) {
            (code.push(Op::LoadLocal(slot)), now)
        } else {
            (code.push(Op::LoadCapture(capture_slot(now, name))), with_capture(now, name))
        }
    }
}

/// The method of an ability as code refers to it.
pub open spec fn method_ref(
    t: TablesView,
    info: AbilityView,
    method: Seq<char>,
    span: Span,
    unknown: Seq<char>,
) -> Result<MethodView, ErrorView> {
    match method_from(info.methods, method, 0) {
        None => Err(error_at(KindView::Unsupported { feature: unknown }, span)),
        Some(i) => {
            let m = info.methods[i];
            let symbol = KeyView::Bare(impl_symbol(info.uuid, method));
            if m.has_impl && function_hash(t, symbol) is None {
                Err(
                    internal_at(
                        "ability method implementation not in the linking table"@,
                        span,
                    ),
                )
            } else {
                Ok(
                    MethodView {
                        ability_id: info.id,
                        ability_uuid: info.uuid,
                        signature: m.signature,
                        impl_fn: if m.has_impl {
                            function_hash(t, symbol)
                        } else {
                            None
                        },
                        never: m.never,
                    },
                )
            }
        },
    }
}

/// The text of the error for a method that an ability does not have.
pub open spec fn unknown_method_text(method: Seq<char>, id: AbilityId) -> Seq<char> {
    "unknown method `"@ + method + "` for ability id "@ + decimal_text(id as nat)
}

/// The text of the error for an arm for a method that an ability does not have.
pub open spec fn unknown_arm_text(method: Seq<char>, ability: Seq<char>) -> Seq<char> {
    "unknown method `"@ + method + "` for ability `"@ + ability + "`"@
}

/// Code that takes the arguments of a performed method into the parameters of an
/// arm, and the scope behind it.
pub open spec fn arm_params(s: Scope, params: Seq<Param>) -> Result<(Seq<Op>, Scope), ErrorView>
    decreases params.len(),
{
    if params.len() == 0 {
        Ok((seq![], s))
    } else {
        match arm_params(s, params.drop_last()) {
            Err(e) => Err(e),
            Ok((code, before)) => match with_local(
                before,
                params.last().id,
                params.last().name@,
            ) {
                Err(e) => Err(e),
                Ok(now) => Ok(
                    (
                        code + seq![
                            Op::LoadLocal(1),
                            Op::GetAbilityArg((params.len() - 1) as u8),
                            Op::StoreLocal((params.len() + 1) as u16),
                        ],
                        now,
                    ),
                ),
            },
        }
    }
}

/// The name of the local that holds the continuation in an arm.
pub open spec fn continuation_name() -> Seq<char> {
    "__continuation"@
}

/// The name of the local that holds the performed method in an arm.
pub open spec fn suspended_name() -> Seq<char> {
    "__suspended_ability"@
}

/// The scope of an arm: what its handler's arms have captured so far, and the
/// two locals that every arm has.
pub open spec fn arm_scope(outer: Scope, seed: Seq<(Seq<char>, u16)>) -> Result<Scope, ErrorView> {
    let s = Scope { capture_names: seed, ..closure_scope(outer) };
    match with_local(s, 0, continuation_name()) {
        Err(e) => Err(e),
        Ok(one) => with_local(one, 0, suspended_name()),
    }
}

/// The arms of the first `k` methods of a handler by the ability they handle, in
/// the order in which the abilities come first.
pub open spec fn arm_groups(t: TablesView, ms: Seq<HandlerLiteralMethod>, k: int) -> Result<
    Seq<(AbilityId, Seq<int>)>,
    ErrorView,
>
    decreases k,
{
    if k <= 0 {
        Ok(seq![])
    } else {
        match arm_groups(t, ms, k - 1) {
            Err(e) => Err(e),
            Ok(groups) => match ability_of(t, ms[k - 1].ability) {
                None => Err(
                    error_at(
                        KindView::Unsupported {
                            feature: "unknown ability: "@ + ms[k - 1].ability.name@,
                        },
                        ms[k - 1].span,
                    ),
                ),
                Some(info) => Ok(
                    assoc_set(
                        groups,
                        info.id,
                        (match assoc_get(groups, info.id) {
                            Some(arms) => arms,
                            None => seq![],
                        }).push(k - 1),
                    ),
                ),
            },
        }
    }
}

/// What the arms of a handler are: the methods with their functions, the
/// captured values that the arms share, and what was produced.
pub struct ArmTable {
    /// The methods, each with the hash of its arm.
    pub methods: Seq<(MethodView, Seq<u8>)>,
    /// The captured values.
    pub captures: Seq<(Seq<char>, u16)>,
    /// What was produced.
    pub out: Produced,
}

/// What the handlers of a body are: the code that installs them, what is
/// reached behind it, and how many there are.
pub struct Installed {
    /// The code.
    pub code: Seq<Op>,
    /// What is reached.
    pub g: Gen,
    /// How many handlers there are.
    pub count: nat,
}

// ── expressions ─────────────────────────────────────────────────────────────

/// The code of an expression.
pub open spec fn expr_code(t: TablesView, e: Expr, g: Gen, tail: bool) -> Code
    decreases e, 3int, 0int,
{
    after(seq![Op::Mark(e.span)], kind_code(t, e, g, tail))
}

/// The code of an expression, without the note of where it comes from.
pub open spec fn kind_code(t: TablesView, e: Expr, g: Gen, tail: bool) -> Code
    decreases e, 2int, 0int,
{
    match e.kind {
        ExprKind::Unit => Ok((seq![Op::Push(ConstantView::Unit)], g)),
        ExprKind::Bool(b) => Ok((seq![Op::Push(ConstantView::Bool(b))], g)),
        ExprKind::Number(n) => Ok((seq![Op::Push(ConstantView::Number(n))], g)),
        ExprKind::String(s) => Ok((seq![Op::Push(ConstantView::String(s@))], g)),
        ExprKind::Local(id) => local_code(id, e.span, g),
        ExprKind::Name(n) => name_code(t, e, n, g),
        ExprKind::Tuple(es) => followed(
            exprs_code(t, es@, g),
            Op::MakeTuple(es@.len() as u8),
        ),
        ExprKind::TupleIndex(tuple, index) => followed(
            expr_code(t, *tuple, g, false),
            Op::TupleGet(index as u8),
        ),
        ExprKind::Record(fields) => followed(
            fields_code(t, fields@, g),
            Op::MakeRecord(fields@.len() as u8),
        ),
        ExprKind::TypedRecord { name, fields } => followed(
            fields_code(t, fields@, g),
            Op::MakeRecord(fields@.len() as u8),
        ),
        ExprKind::RecordField(record, field) => followed(
            expr_code(t, *record, g, false),
            Op::RecordGet(field@),
        ),
        ExprKind::List(es) => followed(exprs_code(t, es@, g), Op::MakeList(es@.len() as u16)),
        ExprKind::Binary { op, left, right, resolved_op } => binary_code(t, e, g, tail),
        ExprKind::Unary(op, operand) => followed(
            expr_code(t, *operand, g, false),
            Op::Plain(
                match op {
                    UnaryOp::Neg => Opcode::Neg,
                    UnaryOp::Not => Opcode::Not,
                },
            ),
        ),
        ExprKind::If(_, _, _) => if_code(t, e, g, tail),
        ExprKind::Match(_, _) => match_code(t, e, g, tail),
        ExprKind::Block(_, _) => block_code(t, e, g, tail),
        ExprKind::Lambda(_) => lambda_code(t, e, g),
        ExprKind::Call(_, _) => call_code(t, e, g, tail),
        ExprKind::Perform(_) => perform_code(t, e, g),
        ExprKind::Handle(_) => handle_code(t, e, g),
        ExprKind::Resume(value) => after(
            seq![Op::LoadLocal(0)],
            followed(
                expr_code(t, *value, g, false),
                Op::Plain(
                    if tail {
                        Opcode::TailResume
                    } else {
                        Opcode::Resume
                    },
                ),
            ),
        ),
        ExprKind::HandlerLiteral(_) => handler_literal_code(t, e, g),
        ExprKind::Sandbox(s) => expr_code(t, *s.body, g, tail),
        ExprKind::MethodCall { receiver, method, args, resolved_method } => method_call_code(
            t,
            e,
            g,
            tail,
        ),
    }
}

/// The code of expressions, one after the other.
pub open spec fn exprs_code(t: TablesView, es: Seq<Expr>, g: Gen) -> Code
    decreases es, 0int, es.len(),
{
    if es.len() == 0 {
        Ok((seq![], g))
    } else {
        match exprs_code(t, es.drop_last(), g) {
            Err(e) => Err(e),
            Ok((code, h)) => after(code, expr_code(t, es.last(), h, false)),
        }
    }
}

/// The code of the fields of a record: each name, then its value.
pub open spec fn fields_code(t: TablesView, fields: Seq<(String, Expr)>, g: Gen) -> Code
    decreases fields, 0int, fields.len(),
{
    if fields.len() == 0 {
        Ok((seq![], g))
    } else {
        match fields_code(t, fields.drop_last(), g) {
            Err(e) => Err(e),
            Ok((code, h)) => after(
                code.push(Op::Push(ConstantView::String(fields.last().0@))),
                expr_code(t, fields.last().1, h, false),
            ),
        }
    }
}

/// The code of the operands of a binary operator.
pub open spec fn operands_code(t: TablesView, e: Expr, g: Gen) -> Code
    decreases e, 0int, 0int,
{
    match e.kind {
        ExprKind::Binary { op, left, right, resolved_op } => match expr_code(t, *left, g, false) {
            Err(x) => Err(x),
            Ok((lc, h)) => after(lc, expr_code(t, *right, h, false)),
        },
        _ => Err(internal_at(""@, e.span)),
    }
}

/// The code of `&&` or `||`: the right operand is skipped where the left one
/// decides.
pub open spec fn short_circuit_code(t: TablesView, e: Expr, g: Gen, tail: bool) -> Code
    decreases e, 0int, 0int,
{
    match e.kind {
        ExprKind::Binary { op, left, right, resolved_op } => match expr_code(t, *left, g, false) {
            Err(x) => Err(x),
            Ok((lc, h)) => match expr_code(t, *right, h, tail) {
                Err(x) => Err(x),
                Ok((rc, k)) => Ok(
                    (
                        lc + seq![
                            Op::Plain(Opcode::Dup),
                            if op == BinaryOp::And {
                                Op::JumpIfNot(rc.len() + 1int)
                            } else {
                                Op::JumpIf(rc.len() + 1int)
                            },
                            Op::Plain(Opcode::Pop),
                        ] + rc,
                        k,
                    ),
                ),
            },
        },
        _ => Err(internal_at(""@, e.span)),
    }
}

/// The code of a binary operator: of a built-in one, of a trait's method by its
/// hash, or of a slot of a dictionary.
pub open spec fn binary_code(t: TablesView, e: Expr, g: Gen, tail: bool) -> Code
    decreases e, 1int, 0int,
{
    match e.kind {
        ExprKind::Binary { op, left, right, resolved_op } => if op == BinaryOp::And || op
            == BinaryOp::Or {
            short_circuit_code(t, e, g, tail)
        } else {
            match resolved_op {
                Some(ResolvedMethod::DictSlot { dict_index, slot }) => match dict_method_code(
                    dict_index as nat,
                    slot as nat,
                    e.span,
                    g,
                ) {
                    Err(x) => Err(x),
                    Ok((dc, d)) => after(
                        dc,
                        ended(operands_code(t, e, d), seq![Op::CallClosure(2)] + adapted(op)),
                    ),
                },
                Some(ResolvedMethod::Symbol(symbol)) => match operands_code(t, e, g) {
                    Err(x) => Err(x),
                    Ok((oc, k)) => match function_hash(t, KeyView::Bare(symbol@)) {
                        None => Err(
                            error_at(KindView::UndefinedFunction { name: symbol@ }, e.span),
                        ),
                        Some(f) => Ok((oc + (seq![Op::Call(f, 2)] + adapted(op)), k)),
                    },
                },
                None => followed(operands_code(t, e, g), Op::Plain(operator(op))),
            }
        },
        _ => Err(internal_at(""@, e.span)),
    }
}

/// The code of a conditional. Without an else branch its value is unit.
pub open spec fn if_code(t: TablesView, e: Expr, g: Gen, tail: bool) -> Code
    decreases e, 1int, 0int,
{
    match e.kind {
        ExprKind::If(cond, yes, no) => match expr_code(t, *cond, g, false) {
            Err(x) => Err(x),
            Ok((cc, h)) => match expr_code(t, *yes, h, tail) {
                Err(x) => Err(x),
                Ok((yc, k)) => match (match no {
                    Some(n) => expr_code(t, *n, k, tail),
                    None => Ok((seq![Op::Push(ConstantView::Unit)], k)),
                }) {
                    Err(x) => Err(x),
                    Ok((nc, m)) => Ok(
                        (
                            cc + seq![Op::JumpIfNot(yc.len() + 1int)] + yc + seq![
                                Op::Jump(nc.len() as int),
                            ] + nc,
                            m,
                        ),
                    ),
                },
            },
        },
        _ => Err(internal_at(""@, e.span)),
    }
}

/// The code of a match: of the value, then of the arms.
pub open spec fn match_code(t: TablesView, e: Expr, g: Gen, tail: bool) -> Code
    decreases e, 1int, 0int,
{
    match e.kind {
        ExprKind::Match(value, arms) => if arms@.len() == 0 {
            Err(error_at(KindView::Unsupported { feature: "empty match expression"@ }, e.span))
        } else {
            match expr_code(t, *value, g, false) {
                Err(x) => Err(x),
                Ok((vc, h)) => after(vc, arms_code(t, arms@, 0, h, tail)),
            }
        },
        _ => Err(internal_at(""@, e.span)),
    }
}

/// `Dup` where more arms follow.
pub open spec fn keep_original(is_last: bool) -> Seq<Op> {
    if is_last {
        seq![]
    } else {
        seq![Op::Plain(Opcode::Dup)]
    }
}

/// A jump that skips `n` instructions.
pub open spec fn with_skip(op: Op, n: int) -> Op {
    match op {
        Op::JumpIfNot(_) => Op::JumpIfNot(n),
        Op::JumpIf(_) => Op::JumpIf(n),
        _ => Op::Jump(n),
    }
}

/// A pattern's code with its jump leading past `n` instructions behind it.
pub open spec fn failing_past(p: PatternCode, n: nat) -> Seq<Op> {
    match p.fail {
        Some(i) => p.code.update(i, with_skip(p.code[i], p.code.len() - i - 1 + n)),
        None => p.code,
    }
}

/// What follows the pattern of an arm, up to the next arm. Behind the body the
/// other arms are skipped. Where a guard fails on an arm whose pattern cannot,
/// the value is unit.
pub open spec fn arm_rest(guard: Option<Seq<Op>>, can_fail: bool, body: Seq<Op>, others: nat) -> Seq<
    Op,
> {
    match guard {
        Some(gc) => if can_fail {
            gc + seq![Op::JumpIfNot(body.len() + 1int)] + body + seq![Op::Jump(others as int)]
        } else {
            gc + seq![Op::JumpIfNot(body.len() + 1int)] + body + seq![
                Op::Jump(others + 1int),
                Op::Push(ConstantView::Unit),
            ]
        },
        None => if can_fail {
            body.push(Op::Jump(others as int))
        } else {
            body
        },
    }
}

/// The code of the arms of a match from an arm on.
pub open spec fn arms_code(
    t: TablesView,
    arms: Seq<MatchArm>,
    i: nat,
    g: Gen,
    tail: bool,
) -> Code
    decreases arms, 0int, arms.len() - i,
{
    if i >= arms.len() {
        Ok((seq![], g))
    } else {
        let is_last = i == arms.len() - 1;
        match pattern_code(t, arms[i as int].pattern, is_last, g.scope) {
            Err(x) => Err(x),
            Ok(p) => {
                let h = Gen { scope: p.scope, ..g };
                match (match arms[i as int].guard {
                    Some(c) => match expr_code(t, c, h, false) {
                        Err(x) => Err(x),
                        Ok((gc, k)) => Ok((Some(gc), k)),
                    },
                    None => Ok((None, h)),
                }) {
                    Err(x) => Err(x),
                    Ok((guard, k)) => match expr_code(t, arms[i as int].body, k, tail) {
                        Err(x) => Err(x),
                        Ok((bc, m)) => match arms_code(t, arms, i + 1, m, tail) {
                            Err(x) => Err(x),
                            Ok((others, z)) => {
                                let rest = arm_rest(guard, p.fail is Some, bc, others.len());
                                Ok(
                                    (
                                        keep_original(is_last) + failing_past(p, rest.len()) + rest
                                            + others,
                                        z,
                                    ),
                                )
                            },
                        },
                    },
                }
            },
        }
    }
}

/// The code of a block: of its statements, then of its result, which is unit
/// where it has none.
pub open spec fn block_code(t: TablesView, e: Expr, g: Gen, tail: bool) -> Code
    decreases e, 1int, 0int,
{
    match e.kind {
        ExprKind::Block(stmts, result) => match stmts_code(t, stmts@, g) {
            Err(x) => Err(x),
            Ok((code, h)) => match result {
                Some(r) => after(code, expr_code(t, *r, h, tail)),
                None => Ok((code.push(Op::Push(ConstantView::Unit)), h)),
            },
        },
        _ => Err(internal_at(""@, e.span)),
    }
}

/// The code of statements, one after the other.
pub open spec fn stmts_code(t: TablesView, ss: Seq<Stmt>, g: Gen) -> Code
    decreases ss, 0int, ss.len(),
{
    if ss.len() == 0 {
        Ok((seq![], g))
    } else {
        match stmts_code(t, ss.drop_last(), g) {
            Err(e) => Err(e),
            Ok((code, h)) => after(code, stmt_code(t, ss.last(), h)),
        }
    }
}

/// What a constant of a block does: its value becomes an object, and its name
/// means that object in the rest of the block. It has no code.
pub open spec fn block_const_code(c: ConstDef, g: Gen) -> Code {
    match literal(c.value) {
        None => Ok((seq![], g)),
        Some(v) => match stored_value(v) {
            None => Err(
                internal_at("const value could not be content-addressed"@, c.value.span),
            ),
            Some(s) => {
                let o = ObjectView::Value(s);
                Ok(
                    (
                        seq![],
                        Gen {
                            scope: Scope {
                                block_consts: assoc_set(
                                    g.scope.block_consts,
                                    c.name@,
                                    object_hash(o),
                                ),
                                ..g.scope
                            },
                            out: Produced {
                                const_objects: g.out.const_objects.insert(object_hash(o), o),
                                ..g.out
                            },
                        },
                    ),
                )
            },
        },
    }
}

/// The code of a statement.
pub open spec fn stmt_code(t: TablesView, s: Stmt, g: Gen) -> Code
    decreases s, 1int, 0int,
{
    match s.kind {
        StmtKind::Let(b) => match expr_code(t, b.init, g, false) {
            Err(e) => Err(e),
            Ok((code, h)) => match with_local(h.scope, b.id, b.name@) {
                Err(e) => Err(e),
                Ok(scope) => Ok(
                    (
                        code.push(Op::StoreLocal(h.scope.next_local)),
                        Gen { scope, ..h },
                    ),
                ),
            },
        },
        StmtKind::Expr(e) => followed(expr_code(t, e, g, false), Op::Plain(Opcode::Pop)),
        StmtKind::Use(_) => Ok((seq![], g)),
        StmtKind::Const(c) => block_const_code(c, g),
    }
}

/// The code of a call of a closure: the callee, then the arguments.
pub open spec fn closure_call_code(
    t: TablesView,
    e: Expr,
    g: Gen,
    tail: bool,
) -> Code
    decreases e, 0int, 0int,
{
    match e.kind {
        ExprKind::Call(callee, args) => match expr_code(t, *callee, g, false) {
            Err(x) => Err(x),
            Ok((cc, h)) => after(
                cc,
                followed(exprs_code(t, args@, h), closure_op(args@.len() as u8, tail)),
            ),
        },
        _ => Err(internal_at(""@, e.span)),
    }
}

/// The code of a call: of a function by its hash, of a variable, of a
/// constructor, or of whatever the callee's value is.
pub open spec fn call_code(t: TablesView, e: Expr, g: Gen, tail: bool) -> Code
    decreases e, 1int, 0int,
{
    match e.kind {
        ExprKind::Call(callee, args) => match callee.kind {
            ExprKind::Name(n) => if let Some(f) = function_hash(t, name_key(n)) {
                match exprs_code(t, args@, g) {
                    Err(x) => Err(x),
                    Ok((ac, h)) => after(
                        ac,
                        followed(
                            dicts_code(t, callee.dicts, callee.span, h),
                            call_op(
                                f,
                                (args@.len() + dict_count(callee.dicts)) as u8,
                                tail,
                            ),
                        ),
                    ),
                }
            } else if is_variable(g.scope, n) {
                closure_call_code(t, e, g, tail)
            } else if let Some(v) = variant_of(t, n) {
                if !v.has_payload || args@.len() != 1 {
                    Err(
                        internal_at(
                            "enum constructor arity mismatch (checker bug)"@,
                            callee.span,
                        ),
                    )
                } else {
                    followed(
                        expr_code(t, args@[0], g, false),
                        Op::MakeEnum {
                            enum_name: v.enum_name,
                            tag: v.tag,
                            variant: n.name@,
                            has_payload: true,
                        },
                    )
                }
            } else if !n.bare() {
                Err(
                    error_at(
                        KindView::UndefinedFunction { name: crate::ast::joined_name(n) },
                        callee.span,
                    ),
                )
            } else {
                closure_call_code(t, e, g, tail)
            },
            _ => closure_call_code(t, e, g, tail),
        },
        _ => Err(internal_at(""@, e.span)),
    }
}

/// The code of a method call: of the method by its hash, or of a slot of a
/// dictionary.
pub open spec fn method_call_code(t: TablesView, e: Expr, g: Gen, tail: bool) -> Code
    decreases e, 1int, 0int,
{
    match e.kind {
        ExprKind::MethodCall { receiver, method, args, resolved_method } => match resolved_method {
            Some(ResolvedMethod::Symbol(symbol)) => match function_hash(
                t,
                KeyView::Bare(symbol@),
            ) {
                None => Err(error_at(KindView::UndefinedFunction { name: symbol@ }, e.span)),
                Some(f) => match expr_code(t, *receiver, g, false) {
                    Err(x) => Err(x),
                    Ok((rc, h)) => match exprs_code(t, args@, h) {
                        Err(x) => Err(x),
                        Ok((ac, k)) => after(
                            rc + ac,
                            followed(
                                dicts_code(t, e.dicts, e.span, k),
                                call_op(
                                    f,
                                    (1 + args@.len() + dict_count(e.dicts)) as u8,
                                    tail,
                                ),
                            ),
                        ),
                    },
                },
            },
            Some(ResolvedMethod::DictSlot { dict_index, slot }) => match dict_method_code(
                dict_index as nat,
                slot as nat,
                e.span,
                g,
            ) {
                Err(x) => Err(x),
                Ok((dc, d)) => match expr_code(t, *receiver, d, false) {
                    Err(x) => Err(x),
                    Ok((rc, h)) => match exprs_code(t, args@, h) {
                        Err(x) => Err(x),
                        Ok((ac, k)) => after(
                            dc + rc + ac,
                            followed(
                                dicts_code(t, e.dicts, e.span, k),
                                closure_op(
                                    (1 + args@.len() + dict_count(e.dicts)) as u8,
                                    tail,
                                ),
                            ),
                        ),
                    },
                },
            },
            None => Err(internal_at("method call missing resolved symbol"@, e.span)),
        },
        _ => Err(internal_at(""@, e.span)),
    }
}

/// The code of a lambda: it becomes a function of its own, and the code makes a
/// closure of it.
pub open spec fn lambda_code(t: TablesView, e: Expr, g: Gen) -> Code
    decreases e, 1int, 0int,
{
    match e.kind {
        ExprKind::Lambda(l) => match with_params(closure_scope(g.scope), l.params@) {
            Err(x) => Err(x),
            Ok(scope) => match expr_code(t, *l.body, Gen { scope, out: g.out }, false) {
                Err(x) => Err(x),
                Ok((bc, h)) => match built_under(
                    bc.push(Op::Plain(Opcode::Return)),
                    h.scope.next_local,
                    l.params@.len() as u8,
                    lambda_hash(h.out.counter),
                ) {
                    Err(x) => Err(x),
                    Ok(f) => {
                        let out = counted(h.out);
                        let caps = by_slot(h.scope.capture_names);
                        match captures_code(g.scope, caps) {
                            Err(name) => Err(
                                ErrorView {
                                    kind: KindView::Unsupported {
                                        feature: "unknown capture: "@ + name,
                                    },
                                    span: (0, 0),
                                },
                            ),
                            Ok((loads, scope)) => Ok(
                                (
                                    loads.push(
                                        Op::MakeClosure(
                                            lambda_hash(out.counter),
                                            caps.len() as u8,
                                        ),
                                    ),
                                    Gen { scope, out: with_lambda(out, f) },
                                ),
                            ),
                        }
                    },
                },
            },
        },
        _ => Err(internal_at(""@, e.span)),
    }
}

/// The code that performs a method of an ability.
pub open spec fn perform_code(t: TablesView, e: Expr, g: Gen) -> Code
    decreases e, 1int, 0int,
{
    match e.kind {
        ExprKind::Perform(c) => match exprs_code(t, c.args@, g) {
            Err(x) => Err(x),
            Ok((ac, h)) => match dicts_code(t, e.dicts, c.span, h) {
                Err(x) => Err(x),
                Ok((dc, k)) => match ability_of(t, c.ability) {
                    None => Err(
                        error_at(
                            KindView::UnknownAbilityMethod {
                                ability: c.ability.name@,
                                method: c.method@,
                            },
                            c.span,
                        ),
                    ),
                    Some(info) => match method_ref(
                        t,
                        info,
                        c.method@,
                        c.span,
                        unknown_method_text(c.method@, info.id),
                    ) {
                        Err(x) => Err(x),
                        Ok(m) => Ok(
                            (
                                ac + dc + seq![
                                    Op::Suspend(
                                        m,
                                        (c.args@.len() + dict_count(e.dicts)) as u8,
                                    ),
                                    Op::Plain(Opcode::Perform),
                                ],
                                k,
                            ),
                        ),
                    },
                },
            },
        },
        _ => Err(internal_at(""@, e.span)),
    }
}

/// The function of an arm of a handler, with what it captures and what was
/// produced.
pub open spec fn arm_function(
    t: TablesView,
    outer: Scope,
    m: HandlerLiteralMethod,
    seed: Seq<(Seq<char>, u16)>,
    out: Produced,
) -> Result<(FunctionView, Gen), ErrorView>
    decreases m, 1int, 0int,
{
    match arm_scope(outer, seed) {
        Err(e) => Err(e),
        Ok(s) => match arm_params(s, m.params@) {
            Err(e) => Err(e),
            Ok((pc, scope)) => match expr_code(t, m.body, Gen { scope, out }, false) {
                Err(e) => Err(e),
                Ok((bc, h)) => match built(
                    pc + bc.push(Op::Plain(Opcode::Return)),
                    h.scope.next_local,
                    2,
                ) {
                    Err(e) => Err(e),
                    Ok(f) => Ok((f, h)),
                },
            },
        },
    }
}

/// The arms of the first `n` of some methods of a handler.
pub open spec fn arm_table(
    t: TablesView,
    outer: Scope,
    name: Seq<char>,
    info: AbilityView,
    ms: Seq<HandlerLiteralMethod>,
    which: Seq<int>,
    n: nat,
    out: Produced,
) -> Result<ArmTable, ErrorView>
    decreases ms, 1int, n,
{
    if n == 0 {
        Ok(ArmTable { methods: seq![], captures: seq![], out })
    } else {
        match arm_table(t, outer, name, info, ms, which, (n - 1) as nat, out) {
            Err(e) => Err(e),
            Ok(done) => if 0 <= which[n - 1] < ms.len() {
                let m = ms[which[n - 1]];
                match method_ref(t, info, m.method@, m.span, unknown_arm_text(m.method@, name)) {
                    Err(e) => Err(e),
                    Ok(r) => match arm_function(t, outer, m, done.captures, done.out) {
                        Err(e) => Err(e),
                        Ok((f, h)) => Ok(
                            ArmTable {
                                methods: done.methods.push((r, lambda_hash(h.out.counter))),
                                captures: h.scope.capture_names,
                                out: with_lambda(h.out, f),
                            },
                        ),
                    },
                }
            } else {
                Ok(done)
            },
        }
    }
}

/// The arms of a handler of an ability.
pub open spec fn handler_arms(
    t: TablesView,
    outer: Scope,
    id: AbilityId,
    ms: Seq<HandlerLiteralMethod>,
    which: Seq<int>,
    span: Span,
    out: Produced,
) -> Result<ArmTable, ErrorView>
    decreases ms, 2int, 0int,
{
    match ability_by_id(t, id) {
        None => Err(
            error_at(
                KindView::Unsupported {
                    feature: "unknown ability ID: "@ + decimal_text(id as nat),
                },
                span,
            ),
        ),
        Some((name, info)) => match arm_table(t, outer, name, info, ms, which, which.len(), out) {
            Err(e) => Err(e),
            Ok(a) => Ok(ArmTable { captures: by_slot(a.captures), ..a }),
        },
    }
}

/// The positions of all of some values.
pub open spec fn all_of(n: nat) -> Seq<int> {
    Seq::new(n, |i: int| i)
}

/// The code of a handler as a value. Its type says which ability it handles.
pub open spec fn handler_literal_code(t: TablesView, e: Expr, g: Gen) -> Code
    decreases e, 1int, 0int,
{
    match e.kind {
        ExprKind::HandlerLiteral(lit) => match e.ty {
            Some(Type::Handler(id)) => match handler_arms(
                t,
                g.scope,
                id,
                lit.methods@,
                all_of(lit.methods@.len()),
                e.span,
                g.out,
            ) {
                Err(x) => Err(x),
                Ok(a) => match captures_code(g.scope, a.captures) {
                    Err(name) => Err(
                        error_at(
                            KindView::Unsupported {
                                feature: "unknown capture in handler literal: "@ + name,
                            },
                            e.span,
                        ),
                    ),
                    Ok((loads, scope)) => Ok(
                        (
                            loads.push(
                                Op::MakeHandler(id, a.methods, a.captures.len() as u8),
                            ),
                            Gen { scope, out: a.out },
                        ),
                    ),
                },
            },
            _ => Err(
                error_at(
                    KindView::Unsupported {
                        feature: "handler literal without type annotation"@,
                    },
                    e.span,
                ),
            ),
        },
        _ => Err(internal_at(""@, e.span)),
    }
}

/// The code that installs the handlers of the first `n` groups of arms.
pub open spec fn groups_code(
    t: TablesView,
    outer: Scope,
    ms: Seq<HandlerLiteralMethod>,
    groups: Seq<(AbilityId, Seq<int>)>,
    n: nat,
    span: Span,
    done: Installed,
) -> Result<Installed, ErrorView>
    decreases ms, 3int, n,
{
    if n == 0 {
        Ok(done)
    } else {
        match groups_code(t, outer, ms, groups, (n - 1) as nat, span, done) {
            Err(e) => Err(e),
            Ok(b) => {
                let (id, which) = groups[n - 1];
                match handler_arms(t, outer, id, ms, which, span, b.g.out) {
                    Err(e) => Err(e),
                    Ok(a) => {
                        let (loads, scope) = through_code(b.g.scope, a.captures);
                        Ok(
                            Installed {
                                code: b.code + loads + seq![
                                    Op::MakeHandler(id, a.methods, a.captures.len() as u8),
                                    Op::Plain(Opcode::HandleWithValue),
                                ],
                                g: Gen { scope, out: a.out },
                                count: b.count + 1,
                            },
                        )
                    },
                }
            },
        }
    }
}

/// The code that installs the first `n` handlers, in order: a handler given by
/// its arms as one for each ability, any other by its value.
pub open spec fn handlers_code(
    t: TablesView,
    outer: Scope,
    hs: Seq<Expr>,
    n: nat,
    g: Gen,
) -> Result<Installed, ErrorView>
    decreases hs, 0int, n,
{
    if n == 0 || n > hs.len() {
        Ok(Installed { code: seq![], g, count: 0 })
    } else {
        match handlers_code(t, outer, hs, (n - 1) as nat, g) {
            Err(e) => Err(e),
            Ok(done) => {
                let h = hs[n - 1];
                match h.kind {
                    ExprKind::HandlerLiteral(lit) => match arm_groups(
                        t,
                        lit.methods@,
                        lit.methods@.len() as int,
                    ) {
                        Err(e) => Err(e),
                        Ok(groups) => groups_code(
                            t,
                            outer,
                            lit.methods@,
                            groups,
                            groups.len(),
                            h.span,
                            done,
                        ),
                    },
                    _ => match h.ty {
                        Some(Type::Handler(_)) => match expr_code(t, h, done.g, false) {
                            Err(e) => Err(e),
                            Ok((code, k)) => Ok(
                                Installed {
                                    code: done.code + code.push(
                                        Op::Plain(Opcode::HandleWithValue),
                                    ),
                                    g: k,
                                    count: done.count + 1,
                                },
                            ),
                        },
                        Some(_) => Err(
                            internal_at(
                                "handle-with expression has a non-handler type"@,
                                h.span,
                            ),
                        ),
                        None => Err(
                            internal_at(
                                "handler value expression missing its inferred type"@,
                                h.span,
                            ),
                        ),
                    },
                }
            },
        }
    }
}

/// The name of the local that holds the value of a handled body.
pub open spec fn result_name() -> Seq<char> {
    "__handle_result"@
}

/// The code that applies a function to the value of a handled body.
pub open spec fn else_code(t: TablesView, clause: Option<Box<Expr>>, h: Gen) -> Code
    decreases clause, 5int, 0int,
{
    match clause {
        None => Ok((seq![], h)),
        Some(c) => match with_local(h.scope, 0, result_name()) {
            Err(r) => Err(r),
            Ok(scope) => match expr_code(t, *c, Gen { scope, ..h }, false) {
                Err(r) => Err(r),
                Ok((ec, k)) => Ok(
                    (
                        seq![Op::StoreLocal(h.scope.next_local)] + ec + seq![
                            Op::LoadLocal(h.scope.next_local),
                            Op::CallClosure(1),
                        ],
                        k,
                    ),
                ),
            },
        },
    }
}

/// The code of a body with handlers: the body becomes a closure without
/// parameters that installs the handlers, runs the body and removes the
/// handlers, and the code calls it.
pub open spec fn handle_code(t: TablesView, e: Expr, g: Gen) -> Code
    decreases e, 1int, 0int,
{
    match e.kind {
        ExprKind::Handle(x) => match handlers_code(
            t,
            g.scope,
            x.handlers@,
            x.handlers@.len(),
            Gen { scope: closure_scope(g.scope), out: g.out },
        ) {
            Err(r) => Err(r),
            Ok(i) => match expr_code(t, *x.body, i.g, false) {
                Err(r) => Err(r),
                Ok((bc, h)) => {
                    let removes = Seq::new(i.count, |k: int| Op::Plain(Opcode::Unhandle));
                    match else_code(t, x.else_clause, h) {
                        Err(r) => Err(r),
                        Ok((ec, k)) => match built(
                            i.code + bc + removes + ec.push(Op::Plain(Opcode::Return)),
                            k.scope.next_local,
                            0,
                        ) {
                            Err(r) => Err(r),
                            Ok(f) => {
                                let caps = by_slot(k.scope.capture_names);
                                match captures_code(g.scope, caps) {
                                    Err(name) => Err(
                                        ErrorView {
                                            kind: KindView::Unsupported {
                                                feature: "unknown capture in handle expression: "@
                                                    + name,
                                            },
                                            span: (0, 0),
                                        },
                                    ),
                                    Ok((loads, scope)) => Ok(
                                        (
                                            loads + seq![
                                                Op::MakeClosure(
                                                    lambda_hash(k.out.counter),
                                                    caps.len() as u8,
                                                ),
                                                Op::CallClosure(0),
                                            ],
                                            Gen { scope, out: with_lambda(k.out, f) },
                                        ),
                                    ),
                                }
                            },
                        },
                    }
                },
            },
        },
        _ => Err(internal_at(""@, e.span)),
    }
}

} // verus!
