use ambient_engine::ast::{
    BinaryOp, ConstDef, Expr, FunctionDef, Item, ItemKind, Param, Span,
};
use ambient_engine::bytecode::Constant;
use ambient_engine::compiler::error::CompileErrorKind;
use ambient_engine::compiler::exports::{
    generate_intrinsic_signature, parse_module_exports, ModuleExport, ModuleExportKind,
    ModuleValue,
};
use ambient_engine::compiler::hash::compute_temporary_hash;
use ambient_engine::compiler::repl::{
    compile_expression, compile_expression_with_context, compile_repl_item, ReplContext,
    ReplItemKind,
};
use ambient_engine::core_library::{CoreLibrary, EmbeddedFile};
use ambient_engine::digest::Digest;

fn number(n: f64) -> Expr {
    Expr::number(n.to_bits())
}

fn item(kind: ItemKind) -> Item {
    Item::new(kind, Span::default())
}

fn function(name: &str, params: Vec<Param>, body: Expr) -> FunctionDef {
    FunctionDef {
        name: name.to_string(),
        name_span: Span::default(),
        is_public: false,
        type_params: vec![],
        params,
        ret_ty: None,
        abilities: vec![],
        body,
    }
}

#[test]
fn expressions_become_functions_without_parameters() {
    let expr = Expr::binary(BinaryOp::Add, number(1.0), number(2.0));
    let compiled = compile_expression(&expr).expect("compile");
    assert_eq!(compiled.param_count, 0);
    assert_eq!(compiled.constants.len(), 2);
    let again = compile_expression(&expr).expect("compile");
    assert_eq!(compiled.hash, again.hash);
}

#[test]
fn what_a_session_defines_can_be_called() {
    let mut context = ReplContext::new();
    let call = Expr::call(Expr::name("twice"), vec![number(4.0)]);
    assert!(matches!(
        compile_expression_with_context(&call, &context).unwrap_err().kind,
        CompileErrorKind::UndefinedFunction { .. }
    ));
    let hash = Digest::of(b"twice");
    context.register_function("twice", hash);
    let compiled = compile_expression_with_context(&call, &context).expect("compile");
    assert_eq!(compiled.dependencies, vec![hash]);
    assert!(compiled.constants.iter().any(|c| matches!(c, Constant::Function(h) if *h == hash)));
}

#[test]
fn a_constant_of_a_session_is_called_where_it_is_named() {
    let mut context = ReplContext::new();
    let hash = Digest::of(b"answer");
    context.register_constant("answer", hash);
    assert!(context.is_constant("answer"));
    assert!(!context.is_constant("other"));
    let compiled = compile_expression_with_context(&Expr::name("answer"), &context).expect("compile");
    assert_eq!(compiled.dependencies, vec![hash]);
    let mut functions = ReplContext::new();
    functions.register_function("answer", hash);
    let named = compile_expression_with_context(&Expr::name("answer"), &functions).expect("compile");
    assert!(named.dependencies.is_empty());
}

#[test]
fn definitions_are_functions_or_constants() {
    let context = ReplContext::new();
    let recursive = function(
        "down",
        vec![Param::new(0, "n")],
        Expr::call(Expr::name("down"), vec![Expr::local(0)]),
    );
    let compiled =
        compile_repl_item(&item(ItemKind::Function(recursive)), &context).expect("compile");
    assert_eq!(compiled.name, "down");
    assert_eq!(compiled.kind, ReplItemKind::Function);
    assert_eq!(compiled.function.hash, compute_temporary_hash("down"));

    let constant = ConstDef {
        id: 0,
        name: "answer".to_string(),
        name_span: Span::default(),
        is_public: false,
        ty: None,
        value: number(42.0),
    };
    let compiled = compile_repl_item(&item(ItemKind::Const(constant)), &context).expect("compile");
    assert_eq!(compiled.kind, ReplItemKind::Constant);
    assert_eq!(compiled.function.param_count, 0);

    let other = item(ItemKind::TypeAlias("Alias".to_string()));
    assert!(matches!(
        compile_repl_item(&other, &context).unwrap_err().kind,
        CompileErrorKind::Internal { .. }
    ));
}

#[test]
fn modules_can_be_looked_into() {
    let mut context = ReplContext::new();
    context.register_module(
        "core::math",
        ModuleValue::new(
            "core::math",
            vec![ModuleExport::new("sqrt", ModuleExportKind::Function)],
        ),
    );
    assert!(context.is_module("core::math"));
    assert_eq!(context.get_module("core::math").expect("module").exports.len(), 1);
    assert_eq!(
        context.get_module_member("core::math::sqrt"),
        Some(ModuleExportKind::Function)
    );
    assert_eq!(context.get_module_member("core::math::nope"), None);
}

#[test]
fn core_modules_export_what_their_sources_declare() {
    let library = CoreLibrary::new(&vec![EmbeddedFile {
        path: "time.ab".to_string(),
        source: "pub fn now(): Number { 0 }\nconst ZERO: Number = 0;\n".to_string(),
    }]);
    let mut context = ReplContext::new();
    context.register_core_modules(&library);
    assert!(context.is_module("core::time"));
    assert_eq!(
        context.get_module_member("core::time::now"),
        Some(ModuleExportKind::Function)
    );
    assert_eq!(
        context.get_module_member("core::time::ZERO"),
        Some(ModuleExportKind::Const)
    );
}

#[test]
fn exports_are_read_off_the_source() {
    let exports = parse_module_exports(
        "// a comment\npub fn f(x: Number): Number { x }\npub enum Color { Red }\nfn _hidden() {}\n",
    );
    let found: Vec<(&str, ModuleExportKind)> =
        exports.iter().map(|e| (e.name.as_str(), e.kind)).collect();
    assert!(found.contains(&("f", ModuleExportKind::Function)));
    assert!(found.contains(&("Color", ModuleExportKind::Enum)));
    assert!(!found.iter().any(|(name, _)| *name == "_hidden"));
}

#[test]
fn signatures_of_intrinsics_show_their_arguments() {
    assert_eq!(generate_intrinsic_signature(0), "()");
    assert_eq!(generate_intrinsic_signature(1), "(arg0)");
    assert_eq!(generate_intrinsic_signature(3), "(arg0, arg1, arg2)");
}

fn shown(source: &str) -> Vec<(String, ModuleExportKind, Option<String>)> {
    parse_module_exports(source).into_iter().map(|e| (e.name, e.kind, e.signature)).collect()
}

#[test]
fn a_signature_ends_before_the_body() {
    let source = "pub fn apply(f: (Number) -> Number, x: Number): Number { f(x) }";
    assert_eq!(
        shown(source),
        vec![(
            "apply".to_string(),
            ModuleExportKind::Function,
            Some("(f: (Number) -> Number, x: Number): Number".to_string()),
        )]
    );
    let nested = "pub fn lift(f: Option<(Number) -> Number>): Option<Number> { f }";
    assert_eq!(
        shown(nested)[0].2.as_deref(),
        Some("(f: Option<(Number) -> Number>): Option<Number>")
    );
}

#[test]
fn joined_sources_export_in_turn() {
    let sources = [
        "",
        "\n",
        "pub fn f(x: Number): Number { x }",
        "pub enum Color { Red }\r",
        "const LIMIT: Number = 3;\n",
        "pub struct\nPoint",
    ];
    for a in &sources {
        for b in &sources {
            let mut both = shown(a);
            both.extend(shown(b));
            assert_eq!(shown(&format!("{a}\n{b}")), both);
        }
    }
}
