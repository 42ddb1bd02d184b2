use ambient_engine::ast::{
    BinaryOp, Expr, FunctionDef, Item, ItemKind, Module, Param, Span,
};
use ambient_engine::bytecode::DebugInfo;
use ambient_engine::compiler::assemble::{assemble_module, AbilityMethodCheck};
use ambient_engine::compiler::capture::compile_module_capturing;
use ambient_engine::compiler::entry::CompileOptions;
use ambient_engine::compiler::module_output::CompiledModule;
use ambient_engine::compiler::prelink::{PrelinkError, PrelinkModule};
use ambient_engine::digest::Digest;
use ambient_engine::fqn::{NameKey, NameTable};
use ambient_engine::ordmap::OrdMap;

fn function(name: &str, params: Vec<Param>, body: Expr) -> Item {
    Item::new(
        ItemKind::Function(FunctionDef {
            name: name.to_string(),
            name_span: Span::default(),
            is_public: false,
            type_params: vec![],
            params,
            ret_ty: None,
            abilities: vec![],
            body,
        }),
        Span::default(),
    )
}

fn number(n: f64) -> Expr {
    Expr::number(n.to_bits())
}

/// `run` calls `double`.
fn sample_module() -> Module {
    Module {
        name: "test".to_string(),
        doc: None,
        items: vec![
            function(
                "double",
                vec![Param::new(0, "x")],
                Expr::binary(BinaryOp::Mul, Expr::local(0), number(2.0)),
            ),
            function("run", vec![], Expr::call(Expr::name("double"), vec![number(21.0)])),
        ],
    }
}

/// A module with a lambda and a recursive function.
fn larger_module() -> Module {
    let mut m = sample_module();
    m.items.push(function(
        "count",
        vec![Param::new(0, "n")],
        Expr::if_then_else(
            Expr::binary(BinaryOp::Le, Expr::local(0), number(0.0)),
            number(0.0),
            Some(Expr::call(
                Expr::name("count"),
                vec![Expr::binary(BinaryOp::Sub, Expr::local(0), number(1.0))],
            )),
        ),
    ));
    m.items.push(function(
        "make",
        vec![],
        Expr::lambda(
            vec![Param::new(0, "x")],
            Expr::call(Expr::name("double"), vec![Expr::local(0)]),
        ),
    ));
    m
}

fn copy(p: &PrelinkModule) -> PrelinkModule {
    PrelinkModule::decode(&p.encode().expect("encode")).expect("decode")
}

fn object_hashes(m: &CompiledModule) -> Vec<[u8; 32]> {
    let mut hashes: Vec<[u8; 32]> = m.objects.items().iter().map(|(h, _)| *h.as_bytes()).collect();
    hashes.sort_unstable();
    hashes
}

fn names(m: &CompiledModule) -> Vec<(String, [u8; 32])> {
    let mut out: Vec<(String, [u8; 32])> = m
        .function_names
        .items()
        .iter()
        .map(|(n, h)| (n.to_string(), *h.as_bytes()))
        .collect();
    out.sort();
    out
}

fn lambda_parents(m: &CompiledModule) -> Vec<(String, [u8; 32])> {
    let mut out: Vec<(String, [u8; 32])> = m
        .lambda_parents
        .items()
        .iter()
        .map(|(h, p)| (p.to_string(), *h.as_bytes()))
        .collect();
    out.sort();
    out
}

#[test]
fn prelink_encode_decode_round_trips() {
    let module = sample_module();
    let (_, prelink) =
        compile_module_capturing(&module, CompileOptions::default()).expect("compile");
    let bytes = prelink.encode().expect("encode");
    let decoded = PrelinkModule::decode(&bytes).expect("decode");
    assert_eq!(bytes, decoded.encode().expect("re-encode"));
}

#[test]
fn reassembling_prelink_matches_the_cold_compile() {
    for module in [sample_module(), larger_module()] {
        let (cold, prelink) =
            compile_module_capturing(&module, CompileOptions::default()).expect("compile");
        let bytes = prelink.encode().expect("encode");
        let decoded = PrelinkModule::decode(&bytes).expect("decode");
        let replayed = assemble_module(decoded.to_assemble_inputs()).expect("assemble");
        assert_eq!(object_hashes(&cold), object_hashes(&replayed));
        assert_eq!(names(&cold), names(&replayed));
        assert_eq!(cold.entry_point, replayed.entry_point);
        assert_eq!(lambda_parents(&cold), lambda_parents(&replayed));
    }
}

#[test]
fn remap_moves_the_final_hash_and_stays_deterministic() {
    let module = sample_module();
    let (_, prelink) =
        compile_module_capturing(&module, CompileOptions::default()).expect("compile");
    let temp = prelink
        .functions
        .iter()
        .find(|f| f.name == "double")
        .expect("double present")
        .func
        .hash;
    let new_hash = Digest::of(b"a different double body");
    let mut remap = OrdMap::new();
    remap.insert(temp, new_hash);

    let baseline = assemble_module(prelink.to_assemble_inputs()).expect("baseline");

    let mut a = copy(&prelink);
    a.remap(&remap);
    let assembled_a = assemble_module(a.to_assemble_inputs()).expect("assemble a");

    let mut b = copy(&prelink);
    b.remap(&remap);
    let assembled_b = assemble_module(b.to_assemble_inputs()).expect("assemble b");

    assert_ne!(
        object_hashes(&baseline),
        object_hashes(&assembled_a),
        "remapping a referenced hash must move the dependent's objects"
    );
    assert_eq!(
        object_hashes(&assembled_a),
        object_hashes(&assembled_b),
        "remap + assemble must be deterministic"
    );
}

#[test]
fn remap_keeps_debug_info_and_code() {
    let module = importing_module();
    let before = Digest::of(b"helper before");
    let after = Digest::of(b"helper after");
    let (_, mut prelink) =
        compile_module_capturing(&module, with_helper(before)).expect("compile");
    for f in &mut prelink.functions {
        f.func.debug_info = Some(DebugInfo {
            function_name: Some(f.name.clone()),
            source_file: None,
            source_map: vec![],
            local_names: vec![(0, "x".to_string())],
        });
    }
    let code: Vec<Vec<u8>> = prelink.functions.iter().map(|f| f.func.bytecode.clone()).collect();
    let mut remap = OrdMap::new();
    remap.insert(before, after);
    prelink.remap(&remap);
    for (f, code) in prelink.functions.iter().zip(code) {
        let debug = f.func.debug_info.as_ref().expect("debug info stays");
        assert_eq!(debug.function_name.as_deref(), Some(f.name.as_str()));
        assert_eq!(debug.local_names, [(0, "x".to_string())]);
        assert_eq!(f.func.bytecode, code);
        assert!(!f.func.dependencies.contains(&before));
    }
    assert!(prelink.functions.iter().any(|f| f.func.dependencies.contains(&after)));
}

/// A module that calls an imported function, itself and in a lambda.
fn importing_module() -> Module {
    let call = || Expr::call(Expr::name("helper"), vec![number(1.0)]);
    Module {
        name: "test".to_string(),
        doc: None,
        items: vec![
            function("run", vec![], Expr::binary(BinaryOp::Add, call(), number(2.0))),
            function("later", vec![], Expr::lambda(vec![], call())),
        ],
    }
}

/// What a module is compiled with whose `helper` has a hash.
fn with_helper(hash: Digest) -> CompileOptions<'static> {
    let mut imported = NameTable::new();
    imported.insert(NameKey::Bare("helper".to_string()), hash);
    CompileOptions { imported_hashes: Some(imported), ..CompileOptions::default() }
}

#[test]
fn relinking_gives_what_recompiling_gives() {
    let module = importing_module();
    let before = Digest::of(b"helper before");
    let after = Digest::of(b"helper after");
    let (old, mut prelink) =
        compile_module_capturing(&module, with_helper(before)).expect("compile");
    let (new, recompiled) =
        compile_module_capturing(&module, with_helper(after)).expect("compile again");
    assert_ne!(object_hashes(&old), object_hashes(&new));

    let mut remap = OrdMap::new();
    remap.insert(before, after);
    prelink.remap(&remap);
    assert_eq!(prelink.encode().expect("encode"), recompiled.encode().expect("encode"));

    let relinked = assemble_module(prelink.to_assemble_inputs()).expect("assemble");
    assert_eq!(object_hashes(&relinked), object_hashes(&new));
    assert_eq!(names(&relinked), names(&new));
    assert_eq!(lambda_parents(&relinked), lambda_parents(&new));
    assert_eq!(relinked.entry_point, new.entry_point);
}

#[test]
fn a_form_does_not_depend_on_the_order_of_the_items() {
    let forwards = importing_module();
    let mut backwards = importing_module();
    backwards.items.reverse();
    let helper = Digest::of(b"helper");
    let (_, a) = compile_module_capturing(&forwards, with_helper(helper)).expect("compile");
    let (_, b) = compile_module_capturing(&backwards, with_helper(helper)).expect("compile");
    assert_eq!(a.encode().expect("encode"), b.encode().expect("encode"));
}

#[test]
fn signatures_survive_encoding() {
    let (_, mut prelink) =
        compile_module_capturing(&sample_module(), CompileOptions::default()).expect("compile");
    let mut signatures = OrdMap::new();
    signatures.insert("run".to_string(), "() -> Number".to_string());
    prelink.set_signatures(&signatures);
    let map = copy(&prelink).signature_map();
    assert_eq!(map.len(), 1);
    assert_eq!(map.get_text("run").map(String::as_str), Some("() -> Number"));
}

#[test]
fn malformed_forms_are_refused() {
    let (_, prelink) =
        compile_module_capturing(&sample_module(), CompileOptions::default()).expect("compile");
    let bytes = prelink.encode().expect("encode");

    let mut bad = bytes.clone();
    bad[0] = b'X';
    assert!(matches!(PrelinkModule::decode(&bad), Err(PrelinkError::BadMagic)));

    let mut newer = bytes.clone();
    newer[4] = newer[4].wrapping_add(1);
    assert!(matches!(PrelinkModule::decode(&newer), Err(PrelinkError::BadVersion(_))));

    let mut long = bytes.clone();
    long.push(0);
    assert!(matches!(PrelinkModule::decode(&long), Err(PrelinkError::TrailingBytes)));

    assert!(matches!(
        PrelinkModule::decode(&bytes[..bytes.len() - 1]),
        Err(PrelinkError::Truncated)
    ));
}

#[test]
fn a_form_has_one_length() {
    let (_, prelink) =
        compile_module_capturing(&larger_module(), CompileOptions::default()).expect("compile");
    let bytes = prelink.encode().expect("encode");
    for end in 0..bytes.len() {
        assert!(matches!(PrelinkModule::decode(&bytes[..end]), Err(PrelinkError::Truncated)));
    }
    let mut long = bytes.clone();
    long.extend_from_slice(&bytes);
    assert!(matches!(PrelinkModule::decode(&long), Err(PrelinkError::TrailingBytes)));
}

#[test]
fn a_module_does_not_depend_on_the_order_of_its_functions() {
    let forwards = larger_module();
    let mut backwards = larger_module();
    backwards.items.reverse();
    let (a, _) =
        compile_module_capturing(&forwards, CompileOptions::default()).expect("compile");
    let (b, _) =
        compile_module_capturing(&backwards, CompileOptions::default()).expect("compile");
    assert_eq!(object_hashes(&a), object_hashes(&b));
    assert_eq!(names(&a), names(&b));
}

/// `run` calls a function of a name, itself and in a lambda; `count` is recursive.
fn calling(name: &str) -> Module {
    let call = || Expr::call(Expr::name(name), vec![number(21.0)]);
    let mut m = larger_module();
    m.items = m.items.split_off(2);
    m.items.truncate(1);
    m.items.push(function(
        name,
        vec![Param::new(0, "x")],
        Expr::call(Expr::name("count"), vec![Expr::local(0)]),
    ));
    m.items.push(function("run", vec![], Expr::binary(BinaryOp::Add, call(), number(2.0))));
    m.items.push(function("later", vec![], Expr::lambda(vec![], call())));
    m
}

#[test]
fn renaming_a_function_moves_no_hash() {
    let (a, _) =
        compile_module_capturing(&calling("double"), CompileOptions::default()).expect("compile");
    let (b, _) =
        compile_module_capturing(&calling("twice"), CompileOptions::default()).expect("compile");
    assert_eq!(object_hashes(&a), object_hashes(&b));
    let mut renamed: Vec<(String, [u8; 32])> = names(&a)
        .into_iter()
        .map(|(n, h)| (if n == "double" { "twice".to_string() } else { n }, h))
        .collect();
    renamed.sort();
    assert_eq!(renamed, names(&b));
}

#[test]
fn renaming_a_recursive_function_moves_its_hash() {
    let counting = |name: &str| Module {
        name: "test".to_string(),
        doc: None,
        items: vec![function(
            name,
            vec![Param::new(0, "n")],
            Expr::call(Expr::name(name), vec![Expr::local(0)]),
        )],
    };
    let (a, _) =
        compile_module_capturing(&counting("down"), CompileOptions::default()).expect("compile");
    let (b, _) =
        compile_module_capturing(&counting("below"), CompileOptions::default()).expect("compile");
    assert_ne!(object_hashes(&a), object_hashes(&b));
}

fn method_check(symbol: &str, signature: u8, method: &str) -> AbilityMethodCheck {
    AbilityMethodCheck {
        symbol: symbol.to_string(),
        uuid: [7; 16],
        signature: Some([signature; 32]),
        ability_name: "Log".to_string(),
        method_name: method.to_string(),
        span: (3, 5),
    }
}

#[test]
fn assembling_fails_where_two_methods_would_be_one() {
    let module = Module {
        name: "test".to_string(),
        doc: None,
        items: vec![
            function("one", vec![], number(1.0)),
            function("same", vec![], number(1.0)),
            function("other", vec![], number(2.0)),
        ],
    };
    let (_, prelink) =
        compile_module_capturing(&module, CompileOptions::default()).expect("compile");
    let assembled = |checks: Vec<AbilityMethodCheck>| {
        let mut inputs = prelink.to_assemble_inputs();
        inputs.ability_checks = checks;
        assemble_module(inputs)
    };

    let error = assembled(vec![
        method_check("other", 1, "a"),
        method_check("one", 1, "b"),
        method_check("same", 1, "c"),
    ])
    .expect_err("one method");
    assert_eq!(error.span, (3, 5));
    let text = error.message();
    assert!(text.contains("ability `Log` methods `b` and `c` share a signature"), "{text}");

    assert!(assembled(vec![method_check("one", 1, "b"), method_check("other", 1, "c")]).is_ok());
    assert!(assembled(vec![method_check("one", 1, "b"), method_check("same", 2, "c")]).is_ok());
    assert!(assembled(vec![]).is_ok());
}
