use ambient_engine::ast::{Expr, ExprKind, Span, UnaryOp};
use ambient_engine::bytecode::Constant;
use ambient_engine::const_eval::{literal_type, literal_value};
use ambient_engine::types::Type;

#[test]
fn literal_type_matches_each_permitted_form() {
    assert_eq!(literal_type(&Expr::unit()), Some(Type::Unit));
    assert_eq!(literal_type(&Expr::bool(true)), Some(Type::bool()));
    assert_eq!(literal_type(&Expr::number(42.0f64.to_bits())), Some(Type::number()));
    assert_eq!(literal_type(&Expr::string("hi")), Some(Type::string()));
}

#[test]
fn literal_type_folds_negated_number() {
    let neg = Expr::new(
        ExprKind::Unary(UnaryOp::Neg, Box::new(Expr::number(1.0f64.to_bits()))),
        Span::default(),
    );
    assert_eq!(literal_type(&neg), Some(Type::number()));
}

#[test]
fn literal_type_rejects_non_literals() {
    let neg_bool = Expr::new(
        ExprKind::Unary(UnaryOp::Neg, Box::new(Expr::bool(true))),
        Span::default(),
    );
    assert_eq!(literal_type(&neg_bool), None);
    assert!(literal_value(&neg_bool).is_none());
    assert_eq!(literal_type(&Expr::name("x")), None);
}

#[test]
fn a_negated_number_has_the_other_sign() {
    let neg = Expr::new(
        ExprKind::Unary(UnaryOp::Neg, Box::new(Expr::number(2.5f64.to_bits()))),
        Span::default(),
    );
    match literal_value(&neg) {
        Some(Constant::Number(bits)) => assert_eq!(f64::from_bits(bits), -2.5),
        other => panic!("expected a number, got {other:?}"),
    }
}
