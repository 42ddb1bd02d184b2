use ambient_engine::ast::Module;
use ambient_engine::core_library::{
    register_core_modules, register_declaration_module, CoreLibrary, CoreLibraryError,
    EmbeddedFile, ModuleRegistry, NamedNative,
};
use ambient_engine::module_env::NativeBinding;
use ambient_engine::module_paths::ModulePath;

fn library() -> CoreLibrary {
    let files = vec![
        file("main.ab", "pub use self::option;"),
        file("collections/main.ab", "pub use self::list;"),
        file("collections/list.ab", "pub fn fold(xs: List): Number { 0 }"),
        file("primitives/main.ab", ""),
        file("primitives/number.ab", "pub fn abs(n: Number): Number { n }"),
        file("primitives/string.ab", ""),
        file("option.ab", ""),
        file("traits.ab", ""),
        file("time.ab", "unique(1) struct Duration {}"),
        file("README.md", "no module"),
    ];
    CoreLibrary::new(&files)
}

fn file(path: &str, source: &str) -> EmbeddedFile {
    EmbeddedFile { path: path.to_string(), source: source.to_string() }
}

#[test]
fn test_has_module() {
    let core = library();
    assert!(core.has_module(&["collections::list"]));
    assert!(core.has_module(&["primitives", "number"]));
    assert!(!core.has_module(&["nonexistent"]));
}

#[test]
fn test_get_source() {
    let core = library();
    let source = core.get_source(&["collections::list"]);
    assert!(source.is_ok());
    assert!(source.unwrap().contains("fold"));
}

#[test]
fn test_available_modules() {
    let modules = library().available_modules();
    assert!(modules.contains(&"collections::list".to_string()));
    assert!(modules.contains(&"primitives::number".to_string()));
    assert!(modules.contains(&"primitives::string".to_string()));
    assert!(modules.contains(&"collections".to_string()));
    assert!(modules.contains(&"option".to_string()));
    assert!(modules.contains(&"traits".to_string()));
    assert!(!modules.iter().any(String::is_empty));
}

#[test]
fn test_to_module_path() {
    let path = CoreLibrary::to_module_path(&["collections", "list"]);
    assert_eq!(path.text(), "core::collections::list");
}

#[test]
fn test_module_not_found() {
    let core = library();
    let result = core.get_source(&["nonexistent"]);
    assert!(matches!(result, Err(CoreLibraryError::ModuleNotFound(_))));
    match result {
        Err(e) => assert_eq!(e.message(), "core module not found: nonexistent"),
        Ok(_) => panic!("expected an error"),
    }
}

#[test]
fn test_time_module_registered() {
    let core = library();
    assert!(core.has_module(&["time"]));

    let source = core.get_source(&["time"]).expect("time source");
    assert!(source.contains("struct Duration"));

    let path = CoreLibrary::to_module_path(&["time"]);
    assert_eq!(path.text(), "core::time");
}

#[test]
fn test_core_root_is_a_directory_module() {
    let core = library();
    let root = core
        .modules
        .iter()
        .find(|m| m.path.text() == "core")
        .expect("core root module is registered");
    assert!(root.is_dir_module);
}

#[test]
fn modules_are_ordered_by_path() {
    let core = library();
    let paths: Vec<String> = core.modules.iter().map(|m| m.path.text()).collect();
    let mut sorted = paths.clone();
    sorted.sort();
    assert_eq!(paths, sorted);
    assert_eq!(paths.len(), 9);
}

fn parsed_module(name: &str) -> Result<Module, String> {
    Ok(Module { name: name.to_string(), doc: None, items: vec![] })
}

fn registered(registry: &ModuleRegistry) -> Vec<String> {
    registry.modules.iter().map(|r| r.path.text()).collect()
}

fn native(name: &str) -> NamedNative {
    NamedNative {
        module: CoreLibrary::to_module_path(&["primitives", "number"]),
        name: name.to_string(),
        binding: NativeBinding { uuid: [7; 16], arity: 1 },
    }
}

#[test]
fn modules_before_one_that_does_not_parse_stay_registered() {
    let core = library();
    let paths: Vec<String> = core.modules.iter().map(|m| m.path.text()).collect();

    let mut registry = ModuleRegistry::new();
    let parsed = vec![parsed_module("a"), parsed_module("b"), Err("bad token".to_string())];
    let (name, error) = register_core_modules(&mut registry, &core, vec![native("floor")], parsed)
        .expect_err("does not parse");
    assert_eq!(format!("core::{name}"), paths[2]);
    assert_eq!(error, "bad token");
    assert_eq!(registered(&registry), paths[..2]);
    assert_eq!(registry.modules[1].module.name, "b");
    assert_eq!(registry.natives.len(), 1);
    assert!(registry.prelude.is_none());
}

#[test]
fn registering_the_library_gives_its_paths_and_sets_the_prelude() {
    let core = library();
    let paths: Vec<String> = core.modules.iter().map(|m| m.path.text()).collect();

    let mut registry = ModuleRegistry::new();
    registry.natives.push(native("ceil"));
    let parsed = paths.iter().map(|p| parsed_module(p)).collect();
    let given = register_core_modules(&mut registry, &core, vec![native("floor")], parsed)
        .expect("every module parses");
    let given: Vec<String> = given.iter().map(ModulePath::text).collect();
    assert_eq!(given, paths);
    assert_eq!(registered(&registry), paths);
    for (one, module) in registry.modules.iter().zip(&core.modules) {
        assert_eq!(one.module.name, one.path.text());
        assert_eq!(one.is_dir_module, module.is_dir_module);
    }
    let names: Vec<&str> = registry.natives.iter().map(|n| n.name.as_str()).collect();
    assert_eq!(names, ["ceil", "floor"]);
    assert_eq!(registry.prelude.expect("prelude").text(), "core::prelude");
}

#[test]
fn declaration_modules_are_registered_where_they_parse() {
    let mut registry = ModuleRegistry::new();
    let path =
        register_declaration_module(&mut registry, &["platform", "io"], parsed_module("decls"))
            .expect("parses");
    assert_eq!(path.text(), "platform::io");
    assert_eq!(registered(&registry), ["platform::io"]);
    assert_eq!(registry.modules[0].module.name, "decls");
    assert!(!registry.modules[0].is_dir_module);
    assert!(registry.modules[0].intrinsics.is_empty());
    assert!(registry.prelude.is_none());

    let (name, error) =
        register_declaration_module(&mut registry, &["a", "b"], Err("no".to_string()))
            .expect_err("does not parse");
    assert_eq!((name.as_str(), error.as_str()), ("a::b", "no"));
    assert_eq!(registered(&registry), ["platform::io"]);
}
