use ambient_engine::fqn::{Fqn, ModuleId, NameKey, Scope};
use ambient_engine::module_paths::ModulePath;

fn mp(segments: &[&str]) -> ModulePath {
    ModulePath::from_str_segments(segments).unwrap()
}

fn owned(segments: &[&str]) -> Vec<String> {
    segments.iter().map(|s| s.to_string()).collect()
}

#[test]
fn builtin_strips_core() {
    let id = ModuleId::from_module_path(&mp(&["core", "primitives"]), "my_pkg");
    assert_eq!(id.scope, Scope::Builtin);
    assert_eq!(id.path, owned(&["primitives"]));
    assert_eq!(id.text(), "core::primitives");
}

#[test]
fn workspace_keeps_full_path() {
    let id = ModuleId::from_module_path(&mp(&["foo", "bar"]), "my_pkg");
    assert_eq!(id.scope, Scope::Workspace("my_pkg".to_string()));
    assert_eq!(id.path, owned(&["foo", "bar"]));
    assert_eq!(id.text(), "workspace::my_pkg::foo::bar");
}

#[test]
fn display_builtin_type_associated() {
    let fqn = Fqn::new(ModuleId::builtin(&["primitives"]), owned(&["number", "sqrt"]));
    assert_eq!(fqn.text(), "core::primitives::number::sqrt");
    assert_eq!(fqn.name(), "sqrt");
}

#[test]
fn display_workspace_item() {
    let fqn = Fqn::new(
        ModuleId::from_module_path(&mp(&["foo"]), "my_example"),
        owned(&["bar", "baz"]),
    );
    assert_eq!(fqn.text(), "workspace::my_example::foo::bar::baz");
}

#[test]
fn submodule_vs_type_associated_are_distinct() {
    let submodule = Fqn::new(
        ModuleId::from_module_path(&mp(&["a", "b"]), "pkg"),
        owned(&["c"]),
    );
    let type_associated = Fqn::new(
        ModuleId::from_module_path(&mp(&["a"]), "pkg"),
        owned(&["b", "c"]),
    );
    assert_ne!(submodule, type_associated);
    assert!(!submodule.same(&type_associated));
    assert_eq!(submodule.text(), type_associated.text());
}

#[test]
fn enum_variant_is_two_segment_ident() {
    let variant = Fqn::new(
        ModuleId::from_module_path(&mp(&["shapes"]), "pkg"),
        owned(&["Color", "Red"]),
    );
    assert_eq!(variant.ident.len(), 2);
    assert_eq!(variant.name(), "Red");
    assert_eq!(variant.text(), "workspace::pkg::shapes::Color::Red");
}

#[test]
fn name_key_item_compares_by_fqn() {
    let key = || {
        NameKey::Item(Fqn::new(
            ModuleId::from_module_path(&mp(&["m"]), "pkg"),
            owned(&["f"]),
        ))
    };
    assert_eq!(key(), key());
    assert!(key().same(&key()));
    assert_ne!(key(), NameKey::Bare("workspace::pkg::m::f".to_string()));
}

#[test]
fn module_paths_and_identities_go_back_and_forth() {
    for segments in [&["core", "system"][..], &["foo"][..], &["a", "b", "c"][..]] {
        let path = mp(segments);
        let id = ModuleId::from_module_path(&path, "pkg");
        assert_eq!(id.to_module_path(), Some(mp(segments)));
    }
    assert_eq!(ModuleId::core_system().text(), "core::system");
    assert!(ModulePath::from_str_segments(&[]).is_none());
}
