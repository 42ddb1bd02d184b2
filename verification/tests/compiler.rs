use ambient_engine::ast::{
    AbilityCall, BinaryOp, ConstDef, EnumDef, EnumVariant, Expr, ExprKind, ExternFnDef,
    FunctionDef, Item, ItemKind, LetBinding, Literal, MatchArm, Module, Param, Pattern,
    PatternKind, QualifiedName, Span, Stmt, StmtKind, UnaryOp,
};
use ambient_engine::bytecode::{CompiledFunction, Constant};
use ambient_engine::compiler::context::{ModuleContext, ModuleTables};
use ambient_engine::compiler::entry::{
    compile_module, compile_module_with_options, compile_module_with_source, CompileOptions,
};
use ambient_engine::compiler::error::{CompileError, CompileErrorKind};
use ambient_engine::compiler::functions::compile_function_with_hash;
use ambient_engine::compiler::hash::{compute_temporary_hash, finalize_module_hashes};
use ambient_engine::compiler::module_output::{CompiledModule, MigrationRecord};
use ambient_engine::compiler::tables::register_imported_enums;
use ambient_engine::digest::Digest;
use ambient_engine::fqn::NameKey;
use ambient_engine::module_env::{ModuleEnv, NativeBinding};
use ambient_engine::object::{value_object, StoredObject};
use ambient_engine::ordmap::OrdMap;
use ambient_engine::types::Type;

fn number(n: f64) -> Expr {
    Expr::number(n.to_bits())
}

fn function(name: &str, params: Vec<Param>, body: Expr) -> FunctionDef {
    FunctionDef {
        name: name.to_string(),
        name_span: Span::default(),
        is_public: false,
        type_params: vec![],
        params,
        ret_ty: None,
        abilities: vec![],
        body,
    }
}

fn function_item(f: FunctionDef) -> Item {
    Item::new(ItemKind::Function(f), Span::default())
}

fn const_def(name: &str, ty: Option<Type>, value: Expr) -> ConstDef {
    ConstDef {
        id: 0,
        name: name.to_string(),
        name_span: Span::default(),
        is_public: false,
        ty,
        value,
    }
}

fn const_item(name: &str, ty: Option<Type>, value: Expr) -> Item {
    Item::new(ItemKind::Const(const_def(name, ty, value)), Span::default())
}

fn module(name: &str, items: Vec<Item>) -> Module {
    Module { name: name.to_string(), doc: None, items }
}

fn let_stmt(id: u32, name: &str, init: Expr) -> Stmt {
    Stmt::new(
        StmtKind::Let(LetBinding {
            id,
            name: name.to_string(),
            name_span: Span::default(),
            ty: None,
            init,
        }),
        Span::default(),
    )
}

fn tables_for(func: &FunctionDef) -> ModuleTables {
    let mut tables = ModuleTables::new(None);
    tables
        .function_hashes
        .insert(NameKey::Bare(func.name.clone()), compute_temporary_hash(&func.name));
    tables
}

fn compile_test_function(func: &FunctionDef) -> Result<CompiledFunction, CompileError> {
    let tables = tables_for(func);
    let mut ctx = ModuleContext::new();
    compile_function_with_hash(func, &tables, &mut ctx, None, None)
}

fn prelude_enum_defs() -> Vec<EnumDef> {
    let variant = |name: &str, has_payload: bool| EnumVariant {
        name: name.to_string(),
        payload: has_payload.then(|| Type::named("T", vec![])),
    };
    vec![
        EnumDef {
            name: "Option".to_string(),
            name_span: Span::default(),
            is_public: true,
            type_params: vec![],
            variants: vec![variant("None", false), variant("Some", true)],
            uuid: [1; 16],
        },
        EnumDef {
            name: "Result".to_string(),
            name_span: Span::default(),
            is_public: true,
            type_params: vec![],
            variants: vec![variant("Ok", true), variant("Err", true)],
            uuid: [2; 16],
        },
    ]
}

fn compile_test_function_with_prelude_enums(
    func: &FunctionDef,
) -> Result<CompiledFunction, CompileError> {
    let mut tables = tables_for(func);
    register_imported_enums(&mut tables.enums, &prelude_enum_defs());
    let mut ctx = ModuleContext::new();
    compile_function_with_hash(func, &tables, &mut ctx, None, None)
}

const PUSH: u8 = 1;
const LOAD_LOCAL: u8 = 2;
const LOAD_CAPTURE: u8 = 4;
const LOAD_OBJECT: u8 = 5;
const MAKE_CLOSURE: u8 = 10;
const RETURN: u8 = 34;

/// The opcodes of a function, without their operands.
fn opcodes(f: &CompiledFunction) -> Vec<u8> {
    let mut out = Vec::new();
    let mut i = 0;
    while i < f.bytecode.len() {
        let op = f.bytecode[i];
        out.push(op);
        i += 1 + match op {
            1..=5 | 14 | 15 | 17 => 2,
            6 | 7 | 10 | 21 => 3,
            8 | 9 | 11..=13 | 23 => 1,
            16 => 7,
            18..=20 => 4,
            22 => {
                let methods =
                    u16::from_le_bytes([f.bytecode[i + 9], f.bytecode[i + 10]]) as usize;
                11 + 4 * methods
            }
            _ => 0,
        };
    }
    out
}

fn has_number(f: &CompiledFunction, n: f64) -> bool {
    f.constants.iter().any(|c| matches!(c, Constant::Number(bits) if *bits == n.to_bits()))
}

fn has_text(f: &CompiledFunction, text: &str) -> bool {
    f.constants.iter().any(|c| matches!(c, Constant::String(s) if s == text))
}

fn has_bool(f: &CompiledFunction, b: bool) -> bool {
    f.constants.iter().any(|c| matches!(c, Constant::Bool(x) if *x == b))
}

fn number_count(f: &CompiledFunction) -> usize {
    f.constants.iter().filter(|c| matches!(c, Constant::Number(_))).count()
}

fn value_hashes(m: &CompiledModule) -> Vec<Digest> {
    m.objects
        .items()
        .iter()
        .filter(|(_, o)| matches!(o, StoredObject::Value(_)))
        .map(|(h, _)| *h)
        .collect()
}

fn number_hash(n: f64) -> Digest {
    value_object(&Constant::Number(n.to_bits())).unwrap().hash()
}

// ── functions and modules ───────────────────────────────────────────────────

#[test]
fn test_compile_simple_function() {
    // fn add(x, y) { x + y }
    let func = function(
        "add",
        vec![Param::new(0, "x"), Param::new(1, "y")],
        Expr::binary(BinaryOp::Add, Expr::local(0), Expr::local(1)),
    );
    let compiled = compile_test_function(&func).expect("compilation failed");
    assert_eq!(compiled.param_count, 2);
    assert!(compiled.local_count >= 2);
    assert_eq!(opcodes(&compiled), vec![LOAD_LOCAL, LOAD_LOCAL, 35, RETURN]);
}

#[test]
fn test_compile_literals() {
    let func = function("test", vec![], number(42.0));
    let compiled = compile_test_function(&func).expect("compilation failed");
    assert!(has_number(&compiled, 42.0));
}

#[test]
fn test_compile_if_else() {
    // fn test(x) { if x { 1 } else { 2 } }
    let func = function(
        "test",
        vec![Param::new(0, "x")],
        Expr::if_then_else(Expr::local(0), number(1.0), Some(number(2.0))),
    );
    let compiled = compile_test_function(&func).expect("compilation failed");
    assert_eq!(compiled.param_count, 1);
}

#[test]
fn test_compile_module_with_functions() {
    let module = module(
        "test",
        vec![
            function_item(function(
                "double",
                vec![Param::new(0, "x")],
                Expr::binary(BinaryOp::Mul, Expr::local(0), number(2.0)),
            )),
            function_item(function(
                "run",
                vec![],
                Expr::call(Expr::name("double"), vec![number(21.0)]),
            )),
        ],
    );
    let compiled = compile_module(&module).expect("compilation failed");
    assert!(compiled.entry_point.is_some());
    assert!(compiled.get_function("double").is_some());
    assert!(compiled.get_function("run").is_some());
}

fn adds(name: &str, amount: f64) -> Item {
    function_item(function(
        name,
        vec![Param::new(0, "x")],
        Expr::binary(BinaryOp::Add, Expr::local(0), number(amount)),
    ))
}

#[test]
fn test_content_addressed_hash_identical_functions() {
    let module1 = module("test1", vec![adds("add_one", 1.0)]);
    let module2 = module("test2", vec![adds("increment", 1.0)]);
    let compiled1 = compile_module(&module1).expect("module1 compilation failed");
    let compiled2 = compile_module(&module2).expect("module2 compilation failed");
    let func1 = compiled1.get_function("add_one").expect("add_one not found");
    let func2 = compiled2.get_function("increment").expect("increment not found");
    assert_eq!(
        func1.hash, func2.hash,
        "Identical functions with different names should have the same content hash"
    );
}

#[test]
fn test_content_addressed_hash_different_functions() {
    let module = module("test", vec![adds("add_one", 1.0), adds("add_two", 2.0)]);
    let compiled = compile_module(&module).expect("compilation failed");
    let func1 = compiled.get_function("add_one").expect("add_one not found");
    let func2 = compiled.get_function("add_two").expect("add_two not found");
    assert_ne!(
        func1.hash, func2.hash,
        "Functions with different implementations should have different hashes"
    );
}

/// `if n <= 1 { 1 } else { n * name(n - 1) }`
fn factorial(name: &str) -> Item {
    function_item(function(
        name,
        vec![Param::new(0, "n")],
        Expr::if_then_else(
            Expr::binary(BinaryOp::Le, Expr::local(0), number(1.0)),
            number(1.0),
            Some(Expr::binary(
                BinaryOp::Mul,
                Expr::local(0),
                Expr::call(
                    Expr::name(name),
                    vec![Expr::binary(BinaryOp::Sub, Expr::local(0), number(1.0))],
                ),
            )),
        ),
    ))
}

#[test]
fn test_recursive_function_hash() {
    let module = module("test", vec![factorial("factorial")]);
    let compiled = compile_module(&module).expect("compilation failed");
    let func = compiled.get_function("factorial").expect("factorial not found");
    let compiled2 = compile_module(&module).expect("compilation failed");
    let func2 = compiled2.get_function("factorial").expect("factorial not found");
    assert_eq!(func.hash, func2.hash, "Recursive function hash should be deterministic");
}

#[test]
fn hashes_do_not_depend_on_the_order_of_declarations() {
    let forward = compile_module(&module(
        "test",
        vec![adds("one", 1.0), adds("two", 2.0), is_even(), is_odd()],
    ))
    .expect("compilation failed");
    let backward = compile_module(&module(
        "test",
        vec![is_odd(), is_even(), adds("two", 2.0), adds("one", 1.0)],
    ))
    .expect("compilation failed");
    for name in ["one", "two", "is_even", "is_odd"] {
        assert_eq!(
            forward.get_function(name).expect("function").hash,
            backward.get_function(name).expect("function").hash,
        );
    }
    assert_eq!(forward.objects.len(), backward.objects.len());
}

// ── control flow ────────────────────────────────────────────────────────────

#[test]
fn test_compile_if_without_else() {
    let func = function(
        "test",
        vec![Param::new(0, "x")],
        Expr::if_then_else(Expr::local(0), number(1.0), None),
    );
    let compiled = compile_test_function(&func).expect("compilation failed");
    assert_eq!(compiled.param_count, 1);
    assert!(compiled.constants.iter().any(|c| matches!(c, Constant::Unit)));
}

#[test]
fn test_compile_nested_if() {
    // fn test(a, b) { if a { if b { 1 } else { 2 } } else { 3 } }
    let func = function(
        "test",
        vec![Param::new(0, "a"), Param::new(1, "b")],
        Expr::if_then_else(
            Expr::local(0),
            Expr::if_then_else(Expr::local(1), number(1.0), Some(number(2.0))),
            Some(number(3.0)),
        ),
    );
    let compiled = compile_test_function(&func).expect("compilation failed");
    assert_eq!(compiled.param_count, 2);
}

#[test]
fn test_compile_all_arithmetic_ops() {
    for op in [BinaryOp::Add, BinaryOp::Sub, BinaryOp::Mul, BinaryOp::Div, BinaryOp::Mod] {
        let func = function(
            "test",
            vec![Param::new(0, "x"), Param::new(1, "y")],
            Expr::binary(op, Expr::local(0), Expr::local(1)),
        );
        let compiled = compile_test_function(&func).unwrap_or_else(|_| panic!("{op:?} failed"));
        assert_eq!(compiled.param_count, 2);
    }
}

#[test]
fn test_compile_all_comparison_ops() {
    for op in [
        BinaryOp::Eq,
        BinaryOp::Ne,
        BinaryOp::Lt,
        BinaryOp::Le,
        BinaryOp::Gt,
        BinaryOp::Ge,
    ] {
        let func = function(
            "test",
            vec![Param::new(0, "x"), Param::new(1, "y")],
            Expr::binary(op, Expr::local(0), Expr::local(1)),
        );
        let compiled = compile_test_function(&func).unwrap_or_else(|_| panic!("{op:?} failed"));
        assert_eq!(compiled.param_count, 2);
    }
}

#[test]
fn test_compile_nested_function_calls() {
    // fn run() { add(mul(2, 3), mul(4, 5)) }
    let binary = |name: &str, op: BinaryOp| {
        function_item(function(
            name,
            vec![Param::new(0, "x"), Param::new(1, "y")],
            Expr::binary(op, Expr::local(0), Expr::local(1)),
        ))
    };
    let module = module(
        "test",
        vec![
            binary("mul", BinaryOp::Mul),
            binary("add", BinaryOp::Add),
            function_item(function(
                "run",
                vec![],
                Expr::call(
                    Expr::name("add"),
                    vec![
                        Expr::call(Expr::name("mul"), vec![number(2.0), number(3.0)]),
                        Expr::call(Expr::name("mul"), vec![number(4.0), number(5.0)]),
                    ],
                ),
            )),
        ],
    );
    let compiled = compile_module(&module).expect("compilation failed");
    assert!(compiled.get_function("run").is_some());
    assert!(compiled.get_function("add").is_some());
    assert!(compiled.get_function("mul").is_some());
}

/// `if n == 0 { base } else { other(n - 1) }`
fn parity(name: &str, base: bool, other: &str) -> Item {
    function_item(function(
        name,
        vec![Param::new(0, "n")],
        Expr::if_then_else(
            Expr::binary(BinaryOp::Eq, Expr::local(0), number(0.0)),
            Expr::bool(base),
            Some(Expr::call(
                Expr::name(other),
                vec![Expr::binary(BinaryOp::Sub, Expr::local(0), number(1.0))],
            )),
        ),
    ))
}

fn is_even() -> Item {
    parity("is_even", true, "is_odd")
}

fn is_odd() -> Item {
    parity("is_odd", false, "is_even")
}

#[test]
fn test_compile_mutual_recursion() {
    let module = module("test", vec![is_even(), is_odd()]);
    let compiled = compile_module(&module).expect("compilation failed");
    assert!(compiled.get_function("is_even").is_some());
    assert!(compiled.get_function("is_odd").is_some());
    // One group, and a redirect for each of its members.
    let groups = compiled
        .objects
        .items()
        .iter()
        .filter(|(_, o)| matches!(o, StoredObject::Group(_)))
        .count();
    let redirects = compiled
        .objects
        .items()
        .iter()
        .filter(|(_, o)| matches!(o, StoredObject::Redirect(_)))
        .count();
    assert_eq!((groups, redirects), (1, 2));
}

// ── debug information ───────────────────────────────────────────────────────

#[test]
fn test_debug_info_generation() {
    let source = r"fn add(x, y) { x + y }";
    let source_file = "test.ab";
    let func = function(
        "add",
        vec![Param::new(0, "x"), Param::new(1, "y")],
        Expr::new(
            ExprKind::Binary {
                op: BinaryOp::Add,
                left: Box::new(Expr::local(0)),
                right: Box::new(Expr::local(1)),
                resolved_op: None,
            },
            Span::new(15, 20),
        ),
    );
    let tables = tables_for(&func);
    let mut ctx = ModuleContext::new();
    let compiled =
        compile_function_with_hash(&func, &tables, &mut ctx, Some(source), Some(source_file))
            .expect("compilation failed");
    let debug_info = compiled.debug_info.expect("debug info should be generated");
    assert_eq!(debug_info.function_name.as_deref(), Some("add"));
    assert_eq!(debug_info.source_file.as_deref(), Some(source_file));
    assert!(!debug_info.source_map.is_empty(), "source map should not be empty");
    let first_mapping = &debug_info.source_map[0];
    assert_eq!(first_mapping.line, 1, "should be on line 1");
    assert!(first_mapping.column > 0, "column should be positive (1-indexed)");
    assert!(
        debug_info.local_names.iter().any(|(slot, _)| *slot == 0),
        "local 'x' should be recorded"
    );
    assert!(
        debug_info.local_names.iter().any(|(slot, _)| *slot == 1),
        "local 'y' should be recorded"
    );
}

#[test]
fn debug_information_does_not_change_the_hash() {
    let m = module("test", vec![adds("add_one", 1.0)]);
    let plain = compile_module(&m).expect("compilation failed");
    let traced =
        compile_module_with_source(&m, "fn add_one(x) { x + 1 }", "a.ab").expect("compilation failed");
    let traced_fn = traced.get_function("add_one").expect("function");
    assert!(traced_fn.debug_info.is_some());
    assert_eq!(plain.get_function("add_one").expect("function").hash, traced_fn.hash);
}

// ── expressions ─────────────────────────────────────────────────────────────

#[test]
fn test_compile_unit_literal() {
    let func = function("test", vec![], Expr::unit());
    let compiled = compile_test_function(&func).expect("compilation failed");
    assert!(compiled.constants.iter().any(|v| matches!(v, Constant::Unit)));
}

#[test]
fn test_compile_bool_literals() {
    let func = function("test", vec![], Expr::bool(true));
    let compiled = compile_test_function(&func).expect("compilation failed");
    assert!(has_bool(&compiled, true));
    let func = function("test", vec![], Expr::bool(false));
    let compiled = compile_test_function(&func).expect("compilation failed");
    assert!(has_bool(&compiled, false));
}

#[test]
fn test_compile_string_literal() {
    let func = function("test", vec![], Expr::string("hello world"));
    let compiled = compile_test_function(&func).expect("compilation failed");
    assert!(has_text(&compiled, "hello world"));
}

#[test]
fn test_compile_tuple() {
    // fn test() { (1, "hello", true) }
    let func = function(
        "test",
        vec![],
        Expr::tuple(vec![number(1.0), Expr::string("hello"), Expr::bool(true)]),
    );
    let compiled = compile_test_function(&func).expect("compilation failed");
    assert!(has_number(&compiled, 1.0));
    assert!(has_text(&compiled, "hello"));
    assert!(has_bool(&compiled, true));
    assert_eq!(opcodes(&compiled), vec![PUSH, PUSH, PUSH, 11, RETURN]);
}

#[test]
fn test_compile_tuple_index() {
    let func =
        function("test", vec![Param::new(0, "t")], Expr::tuple_index(Expr::local(0), 0));
    let compiled = compile_test_function(&func).expect("compilation failed");
    assert_eq!(compiled.param_count, 1);
}

#[test]
fn test_compile_record() {
    // fn test() { { x: 1, y: 2 } }
    let func = function(
        "test",
        vec![],
        Expr::record(vec![("x".to_string(), number(1.0)), ("y".to_string(), number(2.0))]),
    );
    let compiled = compile_test_function(&func).expect("compilation failed");
    assert!(number_count(&compiled) >= 2);
}

#[test]
fn test_compile_record_field() {
    let func =
        function("test", vec![Param::new(0, "r")], Expr::field_access(Expr::local(0), "x"));
    let compiled = compile_test_function(&func).expect("compilation failed");
    assert_eq!(compiled.param_count, 1);
}

#[test]
fn test_compile_list() {
    // fn test() { [1, 2, 3] }
    let func = function(
        "test",
        vec![],
        Expr::new(
            ExprKind::List(vec![number(1.0), number(2.0), number(3.0)]),
            Span::default(),
        ),
    );
    let compiled = compile_test_function(&func).expect("compilation failed");
    assert!(number_count(&compiled) >= 3);
}

#[test]
fn test_compile_unary_neg() {
    let func =
        function("test", vec![Param::new(0, "x")], Expr::unary(UnaryOp::Neg, Expr::local(0)));
    let compiled = compile_test_function(&func).expect("compilation failed");
    assert_eq!(compiled.param_count, 1);
}

#[test]
fn test_compile_unary_not() {
    let func =
        function("test", vec![Param::new(0, "x")], Expr::unary(UnaryOp::Not, Expr::local(0)));
    let compiled = compile_test_function(&func).expect("compilation failed");
    assert_eq!(compiled.param_count, 1);
}

#[test]
fn test_compile_binary_comparison() {
    let func = function(
        "test",
        vec![Param::new(0, "x"), Param::new(1, "y")],
        Expr::binary(BinaryOp::Eq, Expr::local(0), Expr::local(1)),
    );
    let compiled = compile_test_function(&func).expect("compilation failed");
    assert_eq!(compiled.param_count, 2);
}

#[test]
fn test_compile_binary_logical() {
    let func = function(
        "test",
        vec![Param::new(0, "a"), Param::new(1, "b")],
        Expr::binary(BinaryOp::And, Expr::local(0), Expr::local(1)),
    );
    let compiled = compile_test_function(&func).expect("compilation failed");
    assert_eq!(compiled.param_count, 2);
}

#[test]
fn test_compile_block() {
    // fn test() { let x = 1; let y = 2; x + y }
    let func = function(
        "test",
        vec![],
        Expr::block(
            vec![let_stmt(0, "x", number(1.0)), let_stmt(1, "y", number(2.0))],
            Some(Expr::binary(BinaryOp::Add, Expr::local(0), Expr::local(1))),
        ),
    );
    let compiled = compile_test_function(&func).expect("compilation failed");
    assert!(compiled.local_count >= 2);
}

// ── lambdas ─────────────────────────────────────────────────────────────────

#[test]
fn test_compile_lambda() {
    // fn test() { (x) => x + 1 }
    let func = function(
        "test",
        vec![],
        Expr::lambda(
            vec![Param::new(0, "x")],
            Expr::binary(BinaryOp::Add, Expr::local(0), number(1.0)),
        ),
    );
    let _compiled = compile_test_function(&func).expect("compilation failed");
}

#[test]
fn test_compile_closure_capture() {
    // fn test() { let y = 10; (x) => x + y }
    let func = function(
        "test",
        vec![],
        Expr::block(
            vec![let_stmt(0, "y", number(10.0))],
            Some(Expr::lambda(
                vec![Param::new(1, "x")],
                Expr::binary(BinaryOp::Add, Expr::local(1), Expr::name("y")),
            )),
        ),
    );
    let _compiled = compile_test_function(&func).expect("compilation failed");
}

#[test]
fn tests_test_compile_closure_capture() {
    // fn test() { let y = 10; (x) => x + y }, with `y` referred to as a binding
    let func = function(
        "test",
        vec![],
        Expr::block(
            vec![let_stmt(0, "y", number(10.0))],
            Some(Expr::lambda(
                vec![Param::new(1, "x")],
                Expr::binary(BinaryOp::Add, Expr::local(1), Expr::local(0)),
            )),
        ),
    );
    let compiled = compile_test_function(&func).expect("compilation failed");
    assert_eq!(make_closure_count(&opcodes(&compiled)), 1);
}

fn make_closure_count(ops: &[u8]) -> usize {
    ops.iter().filter(|op| **op == MAKE_CLOSURE).count()
}

#[test]
fn test_nested_closure_forwards_capture_by_name() {
    // fn test() { let y = 10; (a) => (b) => y + b }
    let inner = Expr::lambda(
        vec![Param::new(2, "b")],
        Expr::binary(BinaryOp::Add, Expr::name("y"), Expr::local(2)),
    );
    let func = function(
        "test",
        vec![],
        Expr::block(
            vec![let_stmt(0, "y", number(10.0))],
            Some(Expr::lambda(vec![Param::new(1, "a")], inner)),
        ),
    );
    let tables = tables_for(&func);
    let mut ctx = ModuleContext::new();
    let outer = compile_function_with_hash(&func, &tables, &mut ctx, None, None)
        .expect("compilation failed");

    assert_eq!(ctx.lambdas.len(), 2, "expected exactly two nested lambdas");

    let outer_ops = opcodes(&outer);
    assert_eq!(
        make_closure_count(&outer_ops),
        1,
        "`test` should build exactly the middle closure: {outer_ops:?}"
    );
    assert!(
        outer_ops.contains(&LOAD_LOCAL) && outer_ops.contains(&MAKE_CLOSURE),
        "`test` should load its local `y` and build a closure: {outer_ops:?}"
    );
    assert!(
        !outer_ops.contains(&LOAD_CAPTURE),
        "`test` owns `y` as a local and captures nothing: {outer_ops:?}"
    );

    let codes: Vec<Vec<u8>> = ctx.lambdas.iter().map(|(_, _, func)| opcodes(func)).collect();
    let middle = codes
        .iter()
        .find(|ops| make_closure_count(ops) == 1)
        .expect("one lambda must build the inner closure");
    let inner = codes
        .iter()
        .find(|ops| make_closure_count(ops) == 0)
        .expect("one lambda must be the leaf");
    assert!(
        middle.contains(&LOAD_CAPTURE),
        "middle lambda must forward `y` from a capture slot: {middle:?}"
    );
    assert!(
        inner.contains(&LOAD_CAPTURE),
        "inner lambda must read the captured `y`: {inner:?}"
    );
}

#[test]
fn lambdas_are_bound_to_the_function_they_stand_in() {
    let m = module(
        "test",
        vec![function_item(function(
            "make",
            vec![],
            Expr::lambda(
                vec![Param::new(0, "x")],
                Expr::binary(BinaryOp::Add, Expr::local(0), number(1.0)),
            ),
        ))],
    );
    let compiled = compile_module(&m).expect("compilation failed");
    assert_eq!(compiled.functions.len(), 2);
    assert_eq!(compiled.function_names.len(), 1);
    assert_eq!(compiled.lambda_parents.len(), 1);
    let (hash, parent) = &compiled.lambda_parents.items()[0];
    assert_eq!(parent, "make");
    assert!(compiled.get_function_by_hash(hash).is_some());
    // A lambda's hash is that of the function with the same body.
    let named = compile_module(&module("other", vec![adds("plus", 1.0)])).expect("compilation failed");
    assert_eq!(*hash, named.get_function("plus").expect("function").hash);
}

// ── patterns ────────────────────────────────────────────────────────────────

#[test]
fn test_compile_match_none_pattern() {
    let func = function(
        "test",
        vec![Param::new(0, "x")],
        Expr::match_expr(
            Expr::local(0),
            vec![
                MatchArm::new(Pattern::variant("None", None), number(0.0)),
                MatchArm::new(Pattern::wildcard(), number(1.0)),
            ],
        ),
    );
    let compiled = compile_test_function_with_prelude_enums(&func).expect("compilation failed");
    assert_eq!(compiled.param_count, 1);
}

#[test]
fn test_compile_match_some_pattern() {
    let func = function(
        "test",
        vec![Param::new(0, "x")],
        Expr::match_expr(
            Expr::local(0),
            vec![
                MatchArm::new(
                    Pattern::variant("Some", Some(Pattern::binding(1, "v"))),
                    Expr::local(1),
                ),
                MatchArm::new(Pattern::variant("None", None), number(0.0)),
            ],
        ),
    );
    let compiled = compile_test_function_with_prelude_enums(&func).expect("compilation failed");
    assert_eq!(compiled.param_count, 1);
    assert!(compiled.local_count >= 2);
}

#[test]
fn test_compile_match_result_patterns() {
    let func = function(
        "test",
        vec![Param::new(0, "x")],
        Expr::match_expr(
            Expr::local(0),
            vec![
                MatchArm::new(
                    Pattern::variant("Ok", Some(Pattern::binding(1, "v"))),
                    Expr::local(1),
                ),
                MatchArm::new(
                    Pattern::variant("Err", Some(Pattern::binding(2, "e"))),
                    Expr::local(2),
                ),
            ],
        ),
    );
    let compiled = compile_test_function_with_prelude_enums(&func).expect("compilation failed");
    assert_eq!(compiled.param_count, 1);
}

#[test]
fn test_compile_match_variant_with_wildcard_inner() {
    let func = function(
        "test",
        vec![Param::new(0, "x")],
        Expr::match_expr(
            Expr::local(0),
            vec![
                MatchArm::new(
                    Pattern::variant("Some", Some(Pattern::wildcard())),
                    Expr::bool(true),
                ),
                MatchArm::new(Pattern::variant("None", None), Expr::bool(false)),
            ],
        ),
    );
    let compiled = compile_test_function_with_prelude_enums(&func).expect("compilation failed");
    assert_eq!(compiled.param_count, 1);
}

#[test]
fn test_compile_match_literal_pattern() {
    let func = function(
        "test",
        vec![Param::new(0, "x")],
        Expr::match_expr(
            Expr::local(0),
            vec![
                MatchArm::new(
                    Pattern::literal(Literal::Number(42.0f64.to_bits())),
                    Expr::bool(true),
                ),
                MatchArm::new(Pattern::wildcard(), Expr::bool(false)),
            ],
        ),
    );
    let compiled = compile_test_function(&func).expect("compilation failed");
    assert_eq!(compiled.param_count, 1);
}

#[test]
fn test_compile_match_binding_pattern() {
    let func = function(
        "test",
        vec![Param::new(0, "x")],
        Expr::match_expr(
            Expr::local(0),
            vec![MatchArm::new(
                Pattern::binding(1, "y"),
                Expr::binary(BinaryOp::Add, Expr::local(1), number(1.0)),
            )],
        ),
    );
    let compiled = compile_test_function(&func).expect("compilation failed");
    assert_eq!(compiled.param_count, 1);
    assert!(compiled.local_count >= 2);
}

#[test]
fn test_compile_match_tuple_pattern_unsupported() {
    let tuple_pat = Pattern::new(
        PatternKind::Tuple(vec![Pattern::binding(1, "a"), Pattern::binding(2, "b")]),
        Span::default(),
    );
    let func = function(
        "test",
        vec![Param::new(0, "t")],
        Expr::match_expr(
            Expr::local(0),
            vec![MatchArm::new(
                tuple_pat,
                Expr::binary(BinaryOp::Add, Expr::local(1), Expr::local(2)),
            )],
        ),
    );
    let result = compile_test_function(&func);
    assert!(result.is_err(), "Tuple patterns should be unsupported");
    assert!(matches!(result.unwrap_err().kind, CompileErrorKind::Unsupported { .. }));
}

// ── constants ───────────────────────────────────────────────────────────────

#[test]
fn const_reference_links_by_hash_not_inlined() {
    let m = module(
        "test",
        vec![
            const_item("ANSWER", Some(Type::number()), number(42.0)),
            function_item(function("run", vec![], Expr::name("ANSWER"))),
        ],
    );
    let compiled = compile_module(&m).expect("compile");
    let expected_hash = number_hash(42.0);
    assert_eq!(value_hashes(&compiled), vec![expected_hash]);
    // The constant is a value object, not a function.
    assert_eq!(compiled.functions.len(), 1);
    let run = compiled.get_function("run").expect("run");
    assert!(
        run.dependencies.contains(&expected_hash),
        "const hash should be a dependency"
    );
    let ops = opcodes(run);
    assert!(ops.contains(&LOAD_OBJECT), "reference should compile to LoadObject: {ops:?}");
    assert!(!ops.contains(&PUSH), "the literal must not be inlined: {ops:?}");
}

#[test]
fn block_const_links_by_hash_and_dedups_with_module_const() {
    let mut local = const_def("LOCAL", None, number(7.0));
    local.id = 42;
    let m = module(
        "test",
        vec![
            const_item("SHARED", None, number(7.0)),
            function_item(function(
                "run",
                vec![],
                Expr::block(
                    vec![Stmt::new(StmtKind::Const(local), Span::default())],
                    Some(Expr::name("LOCAL")),
                ),
            )),
        ],
    );
    let compiled = compile_module(&m).expect("compile");
    let expected_hash = number_hash(7.0);
    assert_eq!(value_hashes(&compiled), vec![expected_hash]);
    let run = compiled.get_function("run").expect("run");
    assert!(run.dependencies.contains(&expected_hash));
    assert!(opcodes(run).contains(&LOAD_OBJECT));
}

#[test]
fn identical_consts_deduplicate_to_one_object() {
    let m = module(
        "test",
        vec![
            const_item("A", Some(Type::number()), number(100.0)),
            const_item("B", Some(Type::number()), number(100.0)),
            function_item(function(
                "run",
                vec![],
                Expr::binary(BinaryOp::Add, Expr::name("A"), Expr::name("B")),
            )),
        ],
    );
    let compiled = compile_module(&m).expect("compile");
    assert_eq!(
        value_hashes(&compiled).len(),
        1,
        "two consts with the same value share one object"
    );
}

#[test]
fn const_name_binds_to_value_object_hash() {
    let m = module("test", vec![const_item("ANSWER", Some(Type::number()), number(42.0))]);
    let compiled = compile_module(&m).expect("compile");
    let expected_hash = number_hash(42.0);
    assert_eq!(
        compiled.const_names.get_text("ANSWER").copied(),
        Some(expected_hash),
        "const name should bind to its value-object hash"
    );
    assert!(
        compiled.function_names.get_text("ANSWER").is_none(),
        "a const must not appear in function_names"
    );
    assert!(matches!(compiled.objects.get(&expected_hash), Some(StoredObject::Value(_))));
}

#[test]
fn pack_round_trip_preserves_const_names() {
    let m = module(
        "test",
        vec![
            const_item("ANSWER", Some(Type::number()), number(42.0)),
            function_item(function("run", vec![], Expr::name("ANSWER"))),
        ],
    );
    let mut compiled = compile_module(&m).expect("compile");
    compiled.signatures.insert("run".to_string(), "() -> Number".to_string());
    compiled.migrations.push(MigrationRecord {
        cell: "stats".to_string(),
        old: "StatsV1".to_string(),
        new: "Stats".to_string(),
    });
    let restored = CompiledModule::from_pack(&compiled.to_pack()).expect("from_pack");
    assert_eq!(
        restored.const_names.get_text("ANSWER").copied(),
        compiled.const_names.get_text("ANSWER").copied(),
        "const name should survive the pack round-trip in const_names"
    );
    assert!(
        restored.function_names.get_text("run").is_some(),
        "function name should survive in function_names"
    );
    assert!(
        restored.function_names.get_text("ANSWER").is_none(),
        "a const must not be reconstructed as a function"
    );
    assert_eq!(
        restored.signatures.get_text("run").map(String::as_str),
        Some("() -> Number"),
        "signatures should survive the pack round-trip"
    );
    assert_eq!(
        restored.migrations, compiled.migrations,
        "migration records should survive the pack round-trip"
    );
}

#[test]
fn a_group_survives_a_pack_without_its_redirects() {
    let compiled = compile_module(&module("test", vec![is_even(), is_odd()])).expect("compile");
    let pack = compiled.to_pack();
    assert!(pack.objects.iter().all(|o| !matches!(o, StoredObject::Redirect(_))));
    let restored = CompiledModule::from_pack(&pack).expect("from_pack");
    assert_eq!(restored.objects.len(), compiled.objects.len());
    for (hash, _) in compiled.objects.items() {
        assert!(restored.objects.contains_key(hash));
    }
    assert!(restored.get_function("is_even").is_some());
}

#[test]
fn merging_keeps_what_was_there_first() {
    let mut a = compile_module(&module("a", vec![adds("f", 1.0), adds("run", 3.0)])).expect("compile");
    let b = compile_module(&module("b", vec![adds("f", 2.0), adds("g", 2.0)])).expect("compile");
    let f = a.get_function("f").expect("f").hash;
    let entry = a.entry_point;
    a.merge(&b);
    assert_eq!(a.get_function("f").expect("f").hash, f);
    assert_eq!(
        a.get_function("g").expect("g").hash,
        b.get_function("g").expect("g").hash
    );
    assert_eq!(a.entry_point, entry);
    let mut c = compile_module(&module("c", vec![])).expect("compile");
    c.merge(&a);
    assert_eq!(c.entry_point, entry);
}

// ── errors ──────────────────────────────────────────────────────────────────

#[test]
fn unknown_names_are_reported() {
    let func = function(
        "test",
        vec![],
        Expr::new(ExprKind::Name(QualifiedName::simple("nope")), Span::new(3, 7)),
    );
    let err = compile_test_function(&func).unwrap_err();
    assert!(matches!(err.kind, CompileErrorKind::UndefinedFunction { .. }));
    assert_eq!(err.span, (3, 7));
    assert_eq!(err.message(), "undefined function: `nope`");
}

#[test]
fn unknown_locals_are_reported() {
    let func = function("test", vec![], Expr::local(9));
    let err = compile_test_function(&func).unwrap_err();
    assert!(matches!(err.kind, CompileErrorKind::UndefinedLocal { .. }));
}

#[test]
fn native_functions_need_a_binding() {
    let extern_item = || {
        Item::new(
            ItemKind::ExternFn(ExternFnDef {
                name: "now".to_string(),
                name_span: Span::new(4, 9),
                params: vec![Param::new(0, "zone")],
            }),
            Span::default(),
        )
    };
    let options = |binding: Option<NativeBinding>| {
        let mut env = ModuleEnv::default();
        if let Some(b) = binding {
            env.extern_natives.insert("now".to_string(), b);
        }
        CompileOptions { source: None, source_file: None, imported_hashes: None, env }
    };
    let m = module("test", vec![extern_item()]);

    let unbound = compile_module_with_options(&m, options(None)).unwrap_err();
    assert!(matches!(unbound.kind, CompileErrorKind::UnboundExternFn { .. }));
    assert_eq!(unbound.message(), "extern fn `now` has no host binding");

    let wrong = options(Some(NativeBinding { uuid: [3; 16], arity: 2 }));
    let mismatch = compile_module_with_options(&m, wrong).unwrap_err();
    assert!(matches!(
        mismatch.kind,
        CompileErrorKind::ExternArityMismatch { declared: 1, bound: 2, .. }
    ));

    let right = options(Some(NativeBinding { uuid: [3; 16], arity: 1 }));
    let compiled = compile_module_with_options(&m, right).expect("compilation failed");
    let hash = compiled.function_names.get_text("now").expect("bound");
    assert!(matches!(compiled.objects.get(hash), Some(StoredObject::Native(_))));
}

#[test]
fn unknown_abilities_are_reported() {
    let func = function(
        "test",
        vec![],
        Expr::new(
            ExprKind::Perform(AbilityCall {
                ability: QualifiedName::simple("Console"),
                method: "print".to_string(),
                args: vec![],
                span: Span::default(),
            }),
            Span::default(),
        ),
    );
    let err = compile_test_function(&func).unwrap_err();
    assert!(matches!(err.kind, CompileErrorKind::UnknownAbilityMethod { .. }));
    assert_eq!(err.message(), "unknown ability method: `Console.print`");
}

#[test]
fn functions_have_a_most_number_of_constants() {
    let stmts = (0..70000)
        .map(|_| Stmt::new(StmtKind::Expr(number(1.0)), Span::default()))
        .collect();
    let func = function("test", vec![], Expr::block(stmts, None));
    let err = compile_test_function(&func).unwrap_err();
    assert!(matches!(err.kind, CompileErrorKind::TooManyConstants { .. }));
}

#[test]
fn functions_have_a_most_number_of_locals() {
    let stmts = (0..70000u32).map(|i| let_stmt(i, "x", Expr::unit())).collect();
    let func = function("test", vec![], Expr::block(stmts, None));
    let err = compile_test_function(&func).unwrap_err();
    assert!(matches!(
        err.kind,
        CompileErrorKind::TooManyLocals { .. } | CompileErrorKind::TooManyConstants { .. }
    ));
}

/// A function that refers to others by their names.
fn referring(name: &str, to: &[&str], storable: bool) -> (String, CompiledFunction, bool) {
    let refs: Vec<Digest> = to.iter().map(|n| compute_temporary_hash(n)).collect();
    let mut constants: Vec<Constant> = refs.iter().map(|h| Constant::Function(*h)).collect();
    if !storable {
        constants.push(Constant::Runtime);
    }
    let f = CompiledFunction {
        hash: compute_temporary_hash(name),
        bytecode: vec![],
        constants,
        local_count: 0,
        param_count: 0,
        dependencies: refs,
        debug_info: None,
    };
    (name.to_string(), f, false)
}

#[test]
fn the_first_component_with_a_fault_is_reported() {
    let mut groups = OrdMap::new();
    groups.insert("p".to_string(), "Log".to_string());
    groups.insert("q".to_string(), "Log".to_string());
    let leaf = || referring("leaf", &[], false);
    let pair = |extra: &[&str]| {
        let mut to = vec!["q"];
        to.extend(extra);
        vec![referring("p", &to, true), referring("q", &["p"], true)]
    };
    let text = |fs: Vec<(String, CompiledFunction, bool)>| {
        finalize_module_hashes(&fs, &vec![], &groups).expect_err("has a fault").message()
    };
    let constant = text(vec![leaf()]);
    let clash = text(pair(&[]));
    assert_ne!(constant, clash);
    assert!(clash.contains("`Log`"), "{clash}");

    // The group depends on the leaf, so the leaf comes first, wherever it stands.
    let mut fs = pair(&["leaf"]);
    fs.push(leaf());
    assert_eq!(text(fs), constant);

    // Within one group a repeated name is reported before a constant.
    let both = vec![referring("p", &["q"], false), referring("q", &["p"], true)];
    assert_eq!(text(both), clash);
}
