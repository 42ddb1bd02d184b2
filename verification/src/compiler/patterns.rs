//! Code for patterns.
//!
//! A pattern is matched against the value on top of the stack. Where more arms
//! follow, the value is a copy, and what the pattern leaves for the next arm is
//! the original.

use vstd::prelude::*;

use crate::ast::{Literal, Pattern, PatternKind};
use crate::bytecode::{Constant, ConstantView};
use crate::compiler::code::{Instr, Op, Opcode};
use crate::compiler::context::{
    with_local, FunctionCompiler, ModuleTables, Scope, TablesView,
};
use crate::compiler::dicts::error_at;
use crate::compiler::error::{CompileError, ErrorView, KindView};
use crate::text::{owned, push_text};

verus! {

broadcast use vstd::string::group_string_axioms;

/// The value of a literal.
pub open spec fn literal_constant(lit: Literal) -> ConstantView {
    match lit {
        Literal::Unit => ConstantView::Unit,
        Literal::Bool(b) => ConstantView::Bool(b),
        Literal::Number(n) => ConstantView::Number(n),
        Literal::String(s) => ConstantView::String(s@),
    }
}

/// The value of a literal.
fn constant_of(lit: &Literal) -> (r: Constant)
    ensures
        r@ == literal_constant(*lit),
{
    match lit {
        Literal::Unit => Constant::Unit,
        Literal::Bool(b) => Constant::Bool(*b),
        Literal::Number(n) => Constant::Number(*n),
        Literal::String(s) => Constant::String(owned(s.as_str())),
    }
}

/// The code of a pattern.
pub struct PatternCode {
    /// The instructions.
    pub code: Seq<Op>,
    /// The jump that is taken where the pattern does not match, if it can fail.
    pub fail: Option<int>,
    /// The bindings in scope behind it.
    pub scope: Scope,
}

/// `Pop` where more arms follow.
pub open spec fn drop_original(is_last: bool) -> Seq<Op> {
    if is_last {
        seq![]
    } else {
        seq![Op::Plain(Opcode::Pop)]
    }
}

/// The code of a variant pattern around the code that takes the payload. The
/// test leaves the value: on a match it is consumed and the jump leads to the
/// body; else it is dropped and the last jump leads past the arm.
pub open spec fn variant_code(tag: u16, matched: Seq<Op>) -> Seq<Op> {
    seq![Op::EnumIs(tag), Op::JumpIfNot((matched.len() + 1) as int)] + matched + seq![
        Op::Jump(2),
        Op::Plain(Opcode::Pop),
        Op::Jump(0),
    ]
}

/// The code of a pattern; an error where it is not supported.
pub open spec fn pattern_code(t: TablesView, p: Pattern, is_last: bool, s: Scope) -> Result<
    PatternCode,
    ErrorView,
>
    decreases p,
{
    match p.kind {
        PatternKind::Wildcard => Ok(
            PatternCode { code: drop_original(is_last), fail: None, scope: s },
        ),
        PatternKind::Binding(id, name) => match with_local(s, id, name@) {
            Err(e) => Err(e),
            Ok(after) => Ok(
                PatternCode {
                    code: seq![Op::StoreLocal(s.next_local)] + drop_original(is_last),
                    fail: None,
                    scope: after,
                },
            ),
        },
        PatternKind::Literal(lit) => Ok(
            PatternCode {
                code: seq![
                    Op::Push(literal_constant(lit)),
                    Op::Plain(Opcode::Eq),
                    Op::JumpIfNot(0),
                ] + drop_original(is_last),
                fail: Some(2),
                scope: s,
            },
        ),
        PatternKind::Variant(name, inner) => if !t.enums.contains_key(name.name@) {
            Err(
                error_at(
                    KindView::Unsupported { feature: "unknown variant: "@ + name.name@ },
                    p.span,
                ),
            )
        } else {
            let tag = t.enums[name.name@].tag;
            match inner {
                None => {
                    let matched = seq![Op::Plain(Opcode::Pop)] + drop_original(is_last);
                    Ok(
                        PatternCode {
                            code: variant_code(tag, matched),
                            fail: Some((matched.len() + 4) as int),
                            scope: s,
                        },
                    )
                },
                Some(sub) => match pattern_code(t, *sub, true, s) {
                    Err(e) => Err(e),
                    Ok(i) => {
                        let matched = seq![Op::Plain(Opcode::EnumPayload)] + i.code
                            + drop_original(is_last);
                        Ok(
                            PatternCode {
                                code: variant_code(tag, matched),
                                fail: Some((matched.len() + 4) as int),
                                scope: i.scope,
                            },
                        )
                    },
                },
            }
        },
        _ => Err(
            error_at(
                KindView::Unsupported { feature: "complex patterns (tuple/record)"@ },
                p.span,
            ),
        ),
    }
}

/// The jump of a pattern that can fail is one of its instructions.
pub proof fn pattern_fails_inside(t: TablesView, p: Pattern, is_last: bool, s: Scope)
    ensures
        pattern_code(t, p, is_last, s) matches Ok(c) ==> (c.fail matches Some(i) ==> 0 <= i
            < c.code.len() && (c.code[i] is Jump || c.code[i] is JumpIfNot)),
{
}

/// Emit the test of a variant, and say where the jump is that is taken where it
/// fails.
fn begin_variant(fc: &mut FunctionCompiler, tag: u16) -> (r: usize)
    ensures
        final(fc).ops() == old(fc).ops() + seq![Op::EnumIs(tag), Op::JumpIfNot(0)],
        final(fc).scope() == old(fc).scope(),
        r == old(fc).ops().len() + 1,
{
    let ghost start = fc.ops();
    fc.emit(Instr::EnumIs(tag));
    let r: usize = fc.here();
    fc.emit(Instr::JumpIfNot(0));
    assert(fc.ops() =~= start + seq![Op::EnumIs(tag), Op::JumpIfNot(0)]);
    r
}

/// Emit what follows the taking of the payload, and say where the jump is that
/// leads past the arm.
fn end_variant(
    fc: &mut FunctionCompiler,
    cleanup: usize,
    is_last: bool,
    start: Ghost<Seq<Op>>,
    tag: Ghost<u16>,
    taken: Ghost<Seq<Op>>,
) -> (r: usize)
    requires
        old(fc).ops() == start@ + seq![Op::EnumIs(tag@), Op::JumpIfNot(0)] + taken@,
        cleanup == start@.len() + 1,
    ensures
        final(fc).ops() == start@ + variant_code(tag@, taken@ + drop_original(is_last)),
        final(fc).scope() == old(fc).scope(),
        r == start@.len() + (taken@ + drop_original(is_last)).len() + 4,
{
    let ghost head = start@ + seq![Op::EnumIs(tag@), Op::JumpIfNot(0)];
    let ghost matched = taken@ + drop_original(is_last);
    if !is_last {
        fc.emit_plain(Opcode::Pop);
    }
    assert(fc.ops() =~= head + matched);
    fc.emit(Instr::Jump(2));
    let here: usize = fc.here();
    fc.patch(cleanup, Instr::JumpIfNot(here - cleanup - 1));
    fc.emit_plain(Opcode::Pop);
    let r: usize = fc.here();
    fc.emit(Instr::Jump(0));
    assert(fc.ops() =~= start@ + variant_code(tag@, matched));
    r
}

/// Emit the code of a pattern, and say where the jump is that is taken where it
/// does not match.
pub fn compile_pattern_match(
    t: &ModuleTables,
    fc: &mut FunctionCompiler,
    pattern: &Pattern,
    is_last: bool,
) -> (r: Result<Option<usize>, CompileError>)
    ensures
        match pattern_code(t@, *pattern, is_last, old(fc).scope()) {
            Ok(c) => r matches Ok(f) && final(fc).ops() == old(fc).ops() + c.code
                && final(fc).scope() == c.scope && (match c.fail {
                Some(i) => f matches Some(k) && k == old(fc).ops().len() + i,
                None => f is None,
            }),
            Err(e) => r matches Err(f) && f@ == e,
        },
    decreases *pattern,
{
    let ghost start = fc.ops();
    let ghost s = fc.scope();
    match &pattern.kind {
        PatternKind::Wildcard => {
            if !is_last {
                fc.emit_plain(Opcode::Pop);
            }
            assert(fc.ops() =~= start + drop_original(is_last));
            Ok(None)
        },
        PatternKind::Binding(id, name) => {
            let slot: u16 = fc.alloc_local_with_name(*id, name.as_str())?;
            fc.emit(Instr::StoreLocal(slot));
            if !is_last {
                fc.emit_plain(Opcode::Pop);
            }
            assert(fc.ops() =~= start + (seq![Op::StoreLocal(slot)] + drop_original(is_last)));
            Ok(None)
        },
        PatternKind::Literal(lit) => {
            fc.emit(Instr::Push(constant_of(lit)));
            fc.emit_plain(Opcode::Eq);
            let fail: usize = fc.here();
            fc.emit(Instr::JumpIfNot(0));
            if !is_last {
                fc.emit_plain(Opcode::Pop);
            }
            assert(fc.ops() =~= start + (seq![
                Op::Push(literal_constant(*lit)),
                Op::Plain(Opcode::Eq),
                Op::JumpIfNot(0),
            ] + drop_original(is_last)));
            Ok(Some(fail))
        },
        PatternKind::Variant(name, inner) => {
            let tag: u16 = match t.enums.get(&name.name) {
                Some(v) => v.tag,
                None => {
                    let mut feature = owned("unknown variant: ");
                    push_text(&mut feature, name.name.as_str());
                    return Err(CompileError::unsupported(feature, pattern.span.as_pair()));
                },
            };
            let cleanup: usize = begin_variant(fc, tag);
            let ghost head = fc.ops();
            let ghost taken: Seq<Op> = match inner {
                Some(sub) => seq![Op::Plain(Opcode::EnumPayload)] + (match pattern_code(
                    t@,
                    **sub,
                    true,
                    s,
                ) {
                    Ok(i) => i.code,
                    Err(_) => seq![],
                }),
                None => seq![Op::Plain(Opcode::Pop)],
            };
            match inner {
                Some(sub) => {
                    fc.emit_plain(Opcode::EnumPayload);
                    compile_pattern_match(t, fc, sub, true)?;
                    assert(fc.ops() =~= head + taken);
                },
                None => {
                    fc.emit_plain(Opcode::Pop);
                    assert(fc.ops() =~= head + taken);
                },
            }
            let fail: usize = end_variant(
                fc,
                cleanup,
                is_last,
                Ghost(start),
                Ghost(tag),
                Ghost(taken),
            );
            Ok(Some(fail))
        },
        _ => Err(
            CompileError::unsupported(
                owned("complex patterns (tuple/record)"),
                pattern.span.as_pair(),
            ),
        ),
    }
}

} // verus!
