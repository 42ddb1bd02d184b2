//! The values of constants.
//!
//! A constant is bound to one primitive value, so its initializer is a literal:
//! `()`, a boolean, a number, text, or a negated number. Its value and its type
//! are read off the literal.

use vstd::prelude::*;

use crate::ast::{Expr, ExprKind, UnaryOp};
use crate::bytecode::{Constant, ConstantView};
use crate::text::owned;
use crate::types::{plain_type, Type, TypeView};

verus! {

broadcast use vstd::string::group_string_axioms;

/// The bit of a double-precision number that holds its sign.
pub const SIGN_BIT: u64 = 0x8000_0000_0000_0000;

/// The bits of a number with the other sign.
pub open spec fn negated(bits: u64) -> u64 {
    bits ^ SIGN_BIT
}

/// Negating twice gives the number back.
pub proof fn negation_is_its_own_inverse(bits: u64)
    ensures
        negated(negated(bits)) == bits,
{
    assert((bits ^ 0x8000_0000_0000_0000u64) ^ 0x8000_0000_0000_0000u64 == bits) by (bit_vector);
}

/// The value of a constant's initializer; `None` where it is no literal.
pub open spec fn literal(e: Expr) -> Option<ConstantView> {
    match e.kind {
        ExprKind::Unit => Some(ConstantView::Unit),
        ExprKind::Bool(b) => Some(ConstantView::Bool(b)),
        ExprKind::Number(n) => Some(ConstantView::Number(n)),
        ExprKind::String(s) => Some(ConstantView::String(s@)),
        ExprKind::Unary(UnaryOp::Neg, inner) => match inner.kind {
            ExprKind::Number(n) => Some(ConstantView::Number(negated(n))),
            _ => None,
        },
        _ => None,
    }
}

/// The type of a literal.
pub open spec fn type_of_literal(c: ConstantView) -> TypeView {
    match c {
        ConstantView::Bool(_) => plain_type("Bool"@),
        ConstantView::Number(_) => plain_type("Number"@),
        ConstantView::String(_) => plain_type("String"@),
        _ => TypeView::Unit,
    }
}

/// The value of a constant's initializer; `None` where it is no literal.
pub fn literal_value(expr: &Expr) -> (r: Option<Constant>)
    ensures
        match literal(*expr) {
            Some(c) => r matches Some(v) && v@ == c,
            None => r is None,
        },
{
    match &expr.kind {
        ExprKind::Unit => Some(Constant::Unit),
        ExprKind::Bool(b) => Some(Constant::Bool(*b)),
        ExprKind::Number(n) => Some(Constant::Number(*n)),
        ExprKind::String(s) => Some(Constant::String(owned(s.as_str()))),
        ExprKind::Unary(UnaryOp::Neg, inner) => match &inner.kind {
            ExprKind::Number(n) => Some(Constant::Number(*n ^ SIGN_BIT)),
            _ => None,
        },
        _ => None,
    }
}

/// The type of a constant's initializer; `None` where it is no literal. It is a
/// literal for the type exactly where it is one for the value.
pub fn literal_type(expr: &Expr) -> (r: Option<Type>)
    ensures
        match literal(*expr) {
            Some(c) => r matches Some(t) && t@ == type_of_literal(c),
            None => r is None,
        },
{
    match &expr.kind {
        ExprKind::Unit => Some(Type::Unit),
        ExprKind::Bool(_) => Some(Type::bool()),
        ExprKind::Number(_) => Some(Type::number()),
        ExprKind::String(_) => Some(Type::string()),
        ExprKind::Unary(UnaryOp::Neg, inner) => match &inner.kind {
            ExprKind::Number(_) => Some(Type::number()),
            _ => None,
        },
        _ => None,
    }
}

} // verus!
