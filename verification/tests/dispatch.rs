use ambient_engine::ast::{
    BinaryOp, Expr, ExprKind, FunctionDef, ImplDef, ImplMethod, Item, ItemKind, Module,
    ResolvedMethod, Span,
};
use ambient_engine::dispatch_deps::dispatch_edges;

fn module(name: &str, items: Vec<ItemKind>) -> Module {
    Module {
        name: name.to_string(),
        doc: None,
        items: items.into_iter().map(|k| Item::new(k, Span::default())).collect(),
    }
}

fn defines(symbol: &str) -> ItemKind {
    ItemKind::Impl(ImplDef {
        trait_name: None,
        for_type: "T".to_string(),
        type_params: vec![],
        methods: vec![ImplMethod {
            name: "m".to_string(),
            has_self: true,
            self_id: 0,
            type_params: vec![],
            params: vec![],
            body: Expr::unit(),
            resolved_symbol: Some(symbol.to_string()),
            span: Span::default(),
        }],
    })
}

fn runs(body: Expr) -> ItemKind {
    ItemKind::Function(FunctionDef {
        name: "run".to_string(),
        name_span: Span::default(),
        is_public: false,
        type_params: vec![],
        params: vec![],
        ret_ty: None,
        abilities: vec![],
        body,
    })
}

fn method_call(symbol: &str) -> Expr {
    Expr::new(
        ExprKind::MethodCall {
            receiver: Box::new(Expr::unit()),
            method: "m".to_string(),
            args: vec![],
            resolved_method: Some(ResolvedMethod::Symbol(symbol.to_string())),
        },
        Span::default(),
    )
}

fn operator(symbol: &str) -> Expr {
    Expr::new(
        ExprKind::Binary {
            op: BinaryOp::Add,
            left: Box::new(Expr::unit()),
            right: Box::new(Expr::unit()),
            resolved_op: Some(ResolvedMethod::Symbol(symbol.to_string())),
        },
        Span::default(),
    )
}

#[test]
fn references_to_symbols_order_the_modules() {
    let a = module("a", vec![defines("T::m")]);
    let b = module("b", vec![defines("U::add")]);
    let c = module(
        "c",
        vec![runs(Expr::tuple(vec![
            method_call("T::m"),
            Expr::lambda(vec![], operator("U::add")),
            Expr::name("T::m"),
            method_call("V::gone"),
        ]))],
    );
    let edges = dispatch_edges(&vec![
        ("a".to_string(), &a),
        ("b".to_string(), &b),
        ("c".to_string(), &c),
    ]);
    assert_eq!(edges.len(), 1);
    assert_eq!(
        edges.get_text("c"),
        Some(&vec!["a".to_string(), "b".to_string()])
    );
}

#[test]
fn a_module_needs_no_edge_to_itself() {
    let a = module("a", vec![defines("T::m"), runs(method_call("T::m"))]);
    assert!(dispatch_edges(&vec![("a".to_string(), &a)]).is_empty());
}
