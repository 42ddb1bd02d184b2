use std::collections::BTreeMap;

use ambient_engine::ast::Module;
use ambient_engine::bytecode::Constant;
use ambient_engine::compiler::capture::compile_module_capturing;
use ambient_engine::compiler::entry::CompileOptions;
use ambient_engine::compiler::module_output::{CompiledModule, MigrationRecord};
use ambient_engine::digest::Digest;
use ambient_engine::disk_store::error::DiskStoreError;
use ambient_engine::disk_store::files::{hash_of_file, FileChange, StoreImage};
use ambient_engine::disk_store::objects::DiskStore;
use ambient_engine::disk_store::snapshot::{
    BuildManifest, ManifestError, ManifestModule, MANIFEST_VERSION,
};
use ambient_engine::disk_store::tags::is_valid_tag_name;
use ambient_engine::object::{
    member_hash, value_object, GroupMember, ObjectConstant, ObjectFunction, ObjectRef,
    RedirectTarget, StoredObject, StoredValue,
};
use ambient_engine::ordmap::OrdMap;
use ambient_engine::store::Store;

fn temp_store() -> DiskStore {
    DiskStore::open("/store", StoreImage::new()).expect("open store")
}

/// The files that a store has asked for so far.
struct Files {
    files: BTreeMap<String, Vec<u8>>,
}

impl Files {
    fn new() -> Files {
        Files { files: BTreeMap::new() }
    }

    fn apply(&mut self, store: &mut DiskStore) {
        for change in store.take_changes() {
            match change {
                FileChange::MakeDirectory(_) => {}
                FileChange::Write(path, bytes) => {
                    self.files.insert(path, bytes);
                }
                FileChange::Remove(path) => {
                    self.files.remove(&path);
                }
            }
        }
    }

    fn text(&self, path: &str) -> Option<String> {
        self.files.get(path).map(|b| String::from_utf8(b.clone()).expect("text"))
    }

    fn image(&self, root: &str) -> StoreImage {
        let mut image = StoreImage::new();
        image.format = self.text(&format!("{root}/format"));
        image.names = self.text(&format!("{root}/names"));
        image.signatures = self.text(&format!("{root}/signatures"));
        image.migrations = self.text(&format!("{root}/migrations"));
        for (path, bytes) in &self.files {
            let rest = path.strip_prefix(&format!("{root}/")).expect("below the root");
            let parts: Vec<&str> = rest.split('/').collect();
            match parts.as_slice() {
                ["objects", dir, file] => {
                    image.objects.insert(hash_of_file(dir, file).expect("hash"), bytes.clone());
                }
                ["meta", dir, file] => {
                    image.manifests.insert(hash_of_file(dir, file).expect("hash"), bytes.clone());
                }
                ["prelink", dir, file] => {
                    image.prelinks.insert(hash_of_file(dir, file).expect("hash"), bytes.clone());
                }
                ["snapshots", name] => {
                    image.pointers.insert(name.to_string(), self.text(path).expect("pointer"));
                }
                ["tags", name] => {
                    image.tags.insert(name.to_string(), self.text(path).expect("tag"));
                }
                _ => {}
            }
        }
        image
    }
}

fn reopen(mut store: DiskStore) -> DiskStore {
    let mut files = Files::new();
    files.apply(&mut store);
    DiskStore::open("/store", files.image("/store")).expect("reopen")
}

fn plain(n: f64) -> StoredObject {
    StoredObject::Plain(ObjectFunction {
        bytecode: vec![1, 2, 3],
        constants: vec![ObjectConstant::Number(n.to_bits())],
        local_count: 0,
        param_count: 0,
        dependencies: vec![],
    })
}

fn referring(constants: Vec<ObjectConstant>, dependencies: Vec<ObjectRef>) -> StoredObject {
    StoredObject::Plain(ObjectFunction {
        bytecode: vec![9],
        constants,
        local_count: 0,
        param_count: 0,
        dependencies,
    })
}

fn number_value(n: f64) -> StoredObject {
    value_object(&Constant::Number(n.to_bits())).expect("value object")
}

fn flip_last(bytes: &[u8]) -> Vec<u8> {
    let mut out = bytes.to_vec();
    let last = out.len() - 1;
    out[last] ^= 0xff;
    out
}

// ── objects ─────────────────────────────────────────────────────────────────

#[test]
fn put_get_roundtrip() {
    let mut store = temp_store();
    let object = plain(42.0);
    let hash = store.put_object(&object);
    assert!(store.contains(&hash));
    let loaded = store.get_object(&hash).expect("get").expect("present");
    assert_eq!(loaded, object);
}

#[test]
fn missing_object_is_none() {
    let store = temp_store();
    let absent = Digest::of(b"nothing here");
    assert!(store.get_object(&absent).expect("get").is_none());
    assert!(store.get_function(&absent).expect("get").is_none());
}

#[test]
fn corruption_is_detected() {
    let mut store = temp_store();
    let hash = store.put_object(&plain(1.0));
    let flipped = flip_last(store.objects.get(&hash).expect("stored"));
    store.objects.insert(hash, flipped);
    let result = store.get_object(&hash);
    assert!(
        matches!(
            result,
            Err(DiskStoreError::Corrupt { .. } | DiskStoreError::Object { .. })
        ),
        "corrupted object must not load: {result:?}"
    );
}

#[test]
fn group_and_redirects_roundtrip_through_disk() {
    let mut store = temp_store();
    let member = |other: u32, name: &str| GroupMember {
        name: Some(name.to_string()),
        function: ObjectFunction {
            bytecode: vec![7],
            constants: vec![ObjectConstant::Ref(ObjectRef::Internal(other))],
            local_count: 0,
            param_count: 1,
            dependencies: vec![ObjectRef::Internal(other)],
        },
    };
    let group = StoredObject::Group(vec![member(1, "even"), member(0, "odd")]);
    let group_hash = store.put_object(&group);
    let even = member_hash(&group_hash, 0, 2);
    let odd = member_hash(&group_hash, 1, 2);
    store.put_object_at(
        &even,
        &StoredObject::Redirect(RedirectTarget { group: group_hash, index: 0 }),
    );
    store.put_object_at(
        &odd,
        &StoredObject::Redirect(RedirectTarget { group: group_hash, index: 1 }),
    );
    let func = store.get_function(&even).expect("get").expect("present");
    assert_eq!(func.hash, even);
    assert_eq!(func.dependencies, vec![odd]);
}

#[test]
fn lying_redirect_is_rejected() {
    let mut store = temp_store();
    let decoy_hash = store.put_object(&plain(3.0));
    let liar = Digest::of(b"liar");
    store.put_object_at(
        &liar,
        &StoredObject::Redirect(RedirectTarget { group: decoy_hash, index: 5 }),
    );
    let result = store.get_function(&liar);
    assert!(
        matches!(result, Err(DiskStoreError::BadRedirect { .. })),
        "redirect to a non-deriving group must fail: {result:?}"
    );
}

#[test]
fn identical_const_values_deduplicate_on_disk() {
    let mut store = temp_store();
    let a = value_object(&Constant::String("blob".to_string())).expect("value object");
    let b = value_object(&Constant::String("blob".to_string())).expect("value object");
    let first = store.put_object(&a);
    assert!(!store.put_object_at(&b.hash(), &b));
    assert_eq!(first, b.hash());
}

#[test]
fn objects_lie_under_two_digits_of_their_hash() {
    let mut store = temp_store();
    let hash = store.put_object(&plain(1.0));
    let hex = hash.to_hex();
    assert_eq!(store.object_path(&hash), format!("/store/objects/{}/{}", &hex[..2], &hex[2..]));
    assert_eq!(hash_of_file(&hex[..2], &hex[2..]), Some(hash));
    assert_eq!(hash_of_file("zz", &hex[2..]), None);
}

// ── closures ────────────────────────────────────────────────────────────────

#[test]
fn load_closure_pulls_dependencies() {
    let mut store = temp_store();
    let dep_hash = store.put_object(&plain(1.0));
    let root = referring(
        vec![ObjectConstant::Ref(ObjectRef::External(dep_hash))],
        vec![ObjectRef::External(dep_hash)],
    );
    let root_hash = store.put_object(&root);
    let mut memory = Store::new();
    let loaded = store.load_closure(&root_hash, &mut memory).expect("load closure");
    assert_eq!(loaded, 2);
    assert!(memory.contains(&root_hash));
    assert!(memory.contains(&dep_hash));
}

#[test]
fn load_closure_pulls_in_const_value_objects() {
    let mut store = temp_store();
    let value_hash = store.put_object(&number_value(42.0));
    let root = referring(
        vec![ObjectConstant::ValueRef(value_hash)],
        vec![ObjectRef::External(value_hash)],
    );
    let root_hash = store.put_object(&root);
    let mut memory = Store::new();
    store.load_closure(&root_hash, &mut memory).expect("load closure");
    assert!(memory.contains(&root_hash));
    assert_eq!(
        memory.leaves.get(&value_hash),
        Some(&StoredObject::Value(StoredValue::Number(42.0f64.to_bits())))
    );
}

#[test]
fn load_closure_fails_on_missing_dependency() {
    let mut store = temp_store();
    let ghost = Digest::of(b"ghost");
    let root_hash = store.put_object(&referring(vec![], vec![ObjectRef::External(ghost)]));
    let mut memory = Store::new();
    assert!(store.load_closure(&root_hash, &mut memory).is_err());
}

// ── verification and collection ─────────────────────────────────────────────

#[test]
fn verify_reports_clean_and_dangling() {
    let mut store = temp_store();
    store.put_object(&plain(1.0));
    let report = store.verify();
    assert!(report.is_clean());
    assert_eq!(report.valid, 1);
    store.put_object(&referring(vec![], vec![ObjectRef::External(Digest::of(b"ghost"))]));
    let report = store.verify();
    assert_eq!(report.dangling.len(), 1);
    assert!(!report.is_clean());
}

#[test]
fn gc_keeps_named_closure_and_removes_garbage() {
    let mut store = temp_store();
    let dep_hash = store.put_object(&plain(1.0));
    let root_hash = store.put_object(&referring(
        vec![ObjectConstant::Ref(ObjectRef::External(dep_hash))],
        vec![ObjectRef::External(dep_hash)],
    ));
    let garbage_hash = store.put_object(&plain(999.0));
    let mut names = OrdMap::new();
    names.insert("run".to_string(), root_hash);
    store.write_names(&names);
    let removed = store.gc(&vec![]).expect("gc");
    assert_eq!(removed, 1);
    assert!(store.contains(&root_hash));
    assert!(store.contains(&dep_hash));
    assert!(!store.contains(&garbage_hash));
}

#[test]
fn gc_keeps_a_bare_constant_pool_ref() {
    let mut store = temp_store();
    let held_hash = store.put_object(&plain(2.0));
    let root_hash = store.put_object(&referring(
        vec![ObjectConstant::Ref(ObjectRef::External(held_hash))],
        vec![],
    ));
    let mut names = OrdMap::new();
    names.insert("run".to_string(), root_hash);
    store.write_names(&names);
    let removed = store.gc(&vec![]).expect("gc");
    assert_eq!(removed, 0, "the constant-pool ref is reachable");
    assert!(store.contains(&held_hash));
}

#[test]
fn gc_keeps_extra_roots() {
    let mut store = temp_store();
    let kept = store.put_object(&plain(1.0));
    let lost = store.put_object(&plain(2.0));
    assert_eq!(store.gc(&vec![kept]).expect("gc"), 1);
    assert!(store.contains(&kept));
    assert!(!store.contains(&lost));
}

/// Store two functions that call each other and refer to another; their group's hash
/// and their own.
fn put_pair(store: &mut DiskStore, dep: Digest, seed: u8) -> [Digest; 3] {
    let member = |other: u32, name: &str| GroupMember {
        name: Some(name.to_string()),
        function: ObjectFunction {
            bytecode: vec![seed],
            constants: vec![ObjectConstant::Ref(ObjectRef::External(dep))],
            local_count: 0,
            param_count: 0,
            dependencies: vec![ObjectRef::Internal(other), ObjectRef::External(dep)],
        },
    };
    let group = store.put_object(&StoredObject::Group(vec![member(1, "even"), member(0, "odd")]));
    let members = [member_hash(&group, 0, 2), member_hash(&group, 1, 2)];
    for (index, hash) in members.iter().enumerate() {
        let target = RedirectTarget { group, index: index as u32 };
        store.put_object_at(hash, &StoredObject::Redirect(target));
    }
    [group, members[0], members[1]]
}

#[test]
fn gc_of_a_clean_store_leaves_whole_groups() {
    let mut store = temp_store();
    let dep = store.put_object(&plain(1.0));
    let kept = put_pair(&mut store, dep, 1);
    let lost = put_pair(&mut store, dep, 2);
    assert!(store.verify().is_clean());
    assert_eq!(store.gc(&vec![kept[1]]).expect("gc"), 3);
    assert!(store.contains(&dep));
    assert!(kept.iter().all(|h| store.contains(h)));
    assert!(!lost.iter().any(|h| store.contains(h)));
    assert!(store.verify().is_clean());
    assert_eq!(store.gc(&vec![kept[1]]).expect("gc again"), 0);
}

#[test]
fn a_second_gc_removes_nothing() {
    let mut store = temp_store();
    let dep = store.put_object(&plain(1.0));
    let root = store.put_object(&referring(
        vec![ObjectConstant::Ref(ObjectRef::External(dep))],
        vec![ObjectRef::External(dep)],
    ));
    store.put_object(&plain(999.0));
    let kept = store.put_object(&plain(2.0));
    let current = sample_manifest(&[root, dep]);
    store.write_snapshot(&sample_manifest(&[dep, dep]));
    store.write_snapshot(&current);
    assert_eq!(store.gc(&vec![kept]).expect("gc"), 2);
    assert_eq!(store.all_hashes().len(), 3);
    assert_eq!(store.all_manifest_hashes().len(), 1);
    assert_eq!(store.gc(&vec![kept]).expect("gc again"), 0);
    assert!(store.contains(&dep) && store.contains(&root) && store.contains(&kept));
}

// ── opening ─────────────────────────────────────────────────────────────────

#[test]
fn reopening_preserves_contents() {
    let mut store = temp_store();
    let hash = store.put_object(&plain(7.0));
    let store = reopen(store);
    assert!(store.contains(&hash));
    assert!(store.get_function(&hash).expect("get").is_some());
}

#[test]
fn foreign_format_is_rejected() {
    let mut image = StoreImage::new();
    image.format = Some("something-else\n".to_string());
    assert!(matches!(
        DiskStore::open("/store", image),
        Err(DiskStoreError::UnknownFormat(_))
    ));
}

// ── names, signatures and migrations ────────────────────────────────────────

fn same_entries<V: PartialEq>(a: &OrdMap<String, V>, b: &OrdMap<String, V>) -> bool {
    a.items() == b.items()
}

#[test]
fn names_roundtrip_and_merge() {
    let mut store = temp_store();
    let mut names = OrdMap::new();
    names.insert("run".to_string(), Digest::of(b"run"));
    names.insert("helper".to_string(), Digest::of(b"helper"));
    store.write_names(&names);
    assert!(same_entries(&store.names().expect("read"), &names));
}

fn module_binding(name: &str, hash: Digest, signature: Option<&str>) -> CompiledModule {
    let mut module = CompiledModule::new();
    module.function_names.insert(name.to_string(), hash);
    if let Some(sig) = signature {
        module.signatures.insert(name.to_string(), sig.to_string());
    }
    module
}

#[test]
fn put_module_binds_const_names_in_index() {
    let mut store = temp_store();
    let mut module = CompiledModule::new();
    let value_object = number_value(7.0);
    let hash = value_object.hash();
    module.objects.insert(hash, value_object);
    module.const_names.insert("SEVEN".to_string(), hash);
    store.put_module(&module).expect("put module");
    let names = store.names().expect("names");
    assert_eq!(names.get_text("SEVEN"), Some(&hash));
    assert!(matches!(
        store.get_object(&hash).expect("get object"),
        Some(StoredObject::Value(_))
    ));
}

#[test]
fn signatures_roundtrip_through_disk() {
    let mut store = temp_store();
    let hash = Digest::of(b"gcd");
    let mut module = module_binding("gcd", hash, Some("(Number, Number) -> Number"));
    let other = Digest::of(b"greet");
    module.function_names.insert("greet".to_string(), other);
    module.signatures.insert(
        "greet".to_string(),
        "(String) -> String with core::io::Console".to_string(),
    );
    store.put_module(&module).expect("put module");
    let sigs = store.signatures().expect("read signatures");
    assert_eq!(
        sigs.get_text("gcd").map(String::as_str),
        Some("(Number, Number) -> Number")
    );
    assert_eq!(
        sigs.get_text("greet").map(String::as_str),
        Some("(String) -> String with core::io::Console")
    );
    let bindings = store.name_bindings().expect("read bindings");
    assert_eq!(
        bindings.get_text("gcd"),
        Some(&(hash, Some("(Number, Number) -> Number".to_string())))
    );
    assert_eq!(bindings.get_text("greet").map(|(h, _)| *h), Some(other));
}

#[test]
fn signatures_reload_after_reopen() {
    let mut store = temp_store();
    let hash = Digest::of(b"f");
    store.put_module(&module_binding("f", hash, Some("() -> ()"))).expect("put");
    let store = reopen(store);
    assert_eq!(
        store.signatures().expect("read").get_text("f").map(String::as_str),
        Some("() -> ()")
    );
}

#[test]
fn rebinding_without_signature_drops_the_stale_one() {
    let mut store = temp_store();
    let old = Digest::of(b"v1");
    store.put_module(&module_binding("f", old, Some("() -> Number"))).expect("put v1");
    assert!(store.signatures().expect("read").get_text("f").is_some());
    let new = Digest::of(b"v2");
    store.put_module(&module_binding("f", new, None)).expect("put v2");
    let sigs = store.signatures().expect("read");
    assert!(
        sigs.get_text("f").is_none(),
        "a name re-bound without a signature must drop the stale one: {sigs:?}"
    );
    assert_eq!(store.names().expect("names").get_text("f"), Some(&new));
}

#[test]
fn signatures_of_untouched_names_survive_a_put() {
    let mut store = temp_store();
    store
        .put_module(&module_binding("a", Digest::of(b"a"), Some("() -> A")))
        .expect("put a");
    store
        .put_module(&module_binding("b", Digest::of(b"b"), Some("() -> B")))
        .expect("put b");
    let sigs = store.signatures().expect("read");
    assert_eq!(sigs.get_text("a").map(String::as_str), Some("() -> A"));
    assert_eq!(sigs.get_text("b").map(String::as_str), Some("() -> B"));
}

fn migration(cell: &str, old: &str, new: &str) -> MigrationRecord {
    MigrationRecord { cell: cell.to_string(), old: old.to_string(), new: new.to_string() }
}

#[test]
fn migrations_replace_wholesale_on_each_put() {
    let mut store = temp_store();
    let mut first = CompiledModule::new();
    first.migrations.push(migration("app::stats", "StatsV1", "StatsV2"));
    first.migrations.push(migration("app::conns", "ConnV1", "ConnV2"));
    store.put_module(&first).expect("put first");
    assert_eq!(store.migrations().expect("read").len(), 2);
    let mut second = CompiledModule::new();
    second.migrations.push(migration("app::stats", "StatsV2", "StatsV3"));
    store.put_module(&second).expect("put second");
    let migrations = store.migrations().expect("read");
    assert_eq!(migrations, second.migrations);
}

#[test]
fn migrations_with_whitespace_fields_roundtrip() {
    let mut store = temp_store();
    let mut module = CompiledModule::new();
    module.migrations.push(migration(
        "my cell\twith weird\tchars",
        "(Number) -> String with core::io::Console",
        "(Number) -> Result<String, E>",
    ));
    store.put_module(&module).expect("put");
    assert_eq!(store.migrations().expect("read"), module.migrations);
}

#[test]
fn the_order_of_migrations_is_not_written() {
    let records = || {
        vec![
            migration("app::stats", "StatsV1", "StatsV2"),
            migration("app::conns", "ConnV1", "ConnV2"),
            migration("app::stats", "StatsV2", "StatsV3"),
        ]
    };
    let mut forwards = CompiledModule::new();
    forwards.migrations = records();
    let mut backwards = CompiledModule::new();
    backwards.migrations = records();
    backwards.migrations.reverse();
    let mut texts = vec![];
    for module in [forwards, backwards] {
        let mut store = temp_store();
        store.put_module(&module).expect("put");
        let mut files = Files::new();
        files.apply(&mut store);
        texts.push(files.text("/store/migrations").expect("written"));
    }
    assert_eq!(texts[0], texts[1]);
}

#[test]
fn signature_with_control_chars_roundtrips() {
    let mut store = temp_store();
    let hash = Digest::of(b"weird");
    let module = module_binding("weird", hash, Some("a\tb\\c end"));
    store.put_module(&module).expect("put");
    assert_eq!(
        store.signatures().expect("read").get_text("weird").map(String::as_str),
        Some("a\tb\\c end")
    );
}

#[test]
fn old_store_without_sidecars_reads_empty() {
    let mut store = temp_store();
    store.put_object(&plain(1.0));
    assert!(store.signatures().expect("read").is_empty());
    assert!(store.migrations().expect("read").is_empty());
    assert!(store.name_bindings().expect("read").is_empty());
}

#[test]
fn malformed_index_files_are_reported() {
    let mut store = temp_store();
    store.names = Some("run not-a-hash\n".to_string());
    assert!(matches!(store.names(), Err(DiskStoreError::MalformedNames(_))));
    store.signatures = Some("no tab here\n".to_string());
    assert!(matches!(store.signatures(), Err(DiskStoreError::MalformedSignatures(_))));
    store.migrations = Some("one\ttwo\n".to_string());
    assert!(matches!(store.migrations(), Err(DiskStoreError::MalformedMigrations(_))));
}

#[test]
fn what_cannot_be_read_is_quoted() {
    let mut store = temp_store();
    store.names = Some("run \u{7f}\n".to_string());
    let message = store.names().unwrap_err().message();
    assert!(message.contains("\"run \\u{7f}\""), "{message}");
}

// ── snapshots ───────────────────────────────────────────────────────────────

fn manifest_module(name: &str, first: u8) -> ManifestModule {
    ManifestModule {
        module: name.to_string(),
        resolved_ast_hash: [first; 32],
        interface_hash: [first + 1; 32],
        deps: vec![],
        objects: vec![],
        names: vec![],
        signatures: vec![],
        cache_key: [0u8; 32],
        consumed_links: vec![],
        migrations: vec![],
        lambda_parents: vec![],
        entry_point: None,
        source_path: "main.ab".to_string(),
        items: vec![],
        prelink: None,
    }
}

fn sample_manifest(objects: &[Digest]) -> BuildManifest {
    let h = |i: usize| *objects[i].as_bytes();
    let mut core = manifest_module("core::primitives", 1);
    core.objects = vec![h(0)];
    core.names = vec![("core::primitives::sqrt".to_string(), h(0))];
    core.signatures = vec![(
        "core::primitives::sqrt".to_string(),
        "(Number) -> Number".to_string(),
    )];
    let mut math = manifest_module("workspace::demo::math", 3);
    math.deps = vec!["core::primitives".to_string()];
    math.names = vec![("workspace::demo::math::gcd".to_string(), h(1))];
    BuildManifest {
        version: MANIFEST_VERSION,
        package_name: "demo".to_string(),
        dispatch_surface_hash: [7u8; 32],
        natives_contract_hash: [9u8; 32],
        core_cache_key: [0u8; 32],
        modules: vec![core, math],
    }
}

#[test]
fn manifest_roundtrips_byte_identically() {
    let manifest = sample_manifest(&[Digest::of(b"a"), Digest::of(b"b")]);
    let bytes = manifest.encode();
    let decoded = BuildManifest::decode(&bytes).expect("decode");
    assert_eq!(decoded, manifest);
    assert_eq!(decoded.encode(), bytes);
}

#[test]
fn manifest_rejects_bad_magic_version_and_trailing() {
    let manifest = sample_manifest(&[Digest::of(b"a"), Digest::of(b"b")]);
    let bytes = manifest.encode();
    assert!(BuildManifest::decode(&bytes[..bytes.len() - 1]).is_err());
    let mut extra = bytes.clone();
    extra.push(0);
    assert_eq!(BuildManifest::decode(&extra), Err(ManifestError::TrailingBytes));
    let mut bad_magic = bytes.clone();
    bad_magic[0] ^= 0xff;
    assert_eq!(BuildManifest::decode(&bad_magic), Err(ManifestError::BadMagic));
    let mut bad_version = bytes.clone();
    bad_version[4] = MANIFEST_VERSION + 1;
    assert_eq!(
        BuildManifest::decode(&bad_version),
        Err(ManifestError::BadVersion(MANIFEST_VERSION + 1))
    );
}

#[test]
fn a_manifest_has_one_length() {
    let bytes = sample_manifest(&[Digest::of(b"a"), Digest::of(b"b")]).encode();
    for end in 0..bytes.len() {
        assert_eq!(BuildManifest::decode(&bytes[..end]), Err(ManifestError::Truncated));
    }
    let mut long = bytes.clone();
    long.extend_from_slice(&bytes);
    assert_eq!(BuildManifest::decode(&long), Err(ManifestError::TrailingBytes));
}

#[test]
fn write_and_load_snapshot_roundtrips() {
    let mut store = temp_store();
    let a = store.put_object(&plain(1.0));
    let b = store.put_object(&plain(2.0));
    let manifest = sample_manifest(&[a, b]);
    let hash = store.write_snapshot(&manifest);
    assert_eq!(store.snapshot_pointer(), Some(hash));
    let loaded = store.current_snapshot().expect("present");
    assert_eq!(loaded, manifest);
    assert_eq!(store.snapshot_health(), None);
    let store = reopen(store);
    assert_eq!(store.current_snapshot(), Some(manifest));
}

#[test]
fn absent_snapshot_is_none() {
    let store = temp_store();
    assert_eq!(store.current_snapshot(), None);
    assert_eq!(store.snapshot_pointer(), None);
    assert_eq!(store.snapshot_health(), None);
}

#[test]
fn corrupt_manifest_is_absent_in_build_path_but_loud_in_verify() {
    let mut store = temp_store();
    let a = store.put_object(&plain(1.0));
    let b = store.put_object(&plain(2.0));
    let manifest = sample_manifest(&[a, b]);
    let hash = store.write_snapshot(&manifest);
    let flipped = flip_last(store.manifests.get(&hash).expect("stored"));
    store.manifests.insert(hash, flipped);
    assert_eq!(store.current_snapshot(), None);
    let report = store.verify();
    assert!(report.dangling_snapshot.is_some(), "{report:?}");
    assert!(!report.is_clean());
}

#[test]
fn malformed_pointer_is_absent_but_loud() {
    // A file in place of the pointers' directory is a pointer of no package.
    for package in ["", "demo"] {
        let mut store = temp_store();
        store.pointers.insert(package.to_string(), "garbage\n".to_string());
        assert_eq!(store.current_snapshot(), None);
        let report = store.verify();
        assert!(report.dangling_snapshot.is_some(), "{report:?}");
    }
}

#[test]
fn missing_manifest_behind_pointer_is_loud() {
    let mut store = temp_store();
    let phantom = Digest::of(b"never written");
    let content = format!("ambient-snapshot-v1 {}\n", phantom.to_hex());
    store.pointers.insert(String::new(), content);
    assert_eq!(store.current_snapshot(), None);
    let report = store.verify();
    assert!(report.dangling_snapshot.is_some(), "{report:?}");
}

#[test]
fn gc_keeps_snapshot_reachable_objects_and_manifest() {
    let mut store = temp_store();
    let a = store.put_object(&plain(1.0));
    let b = store.put_object(&plain(2.0));
    let garbage = store.put_object(&plain(99.0));
    let manifest = sample_manifest(&[a, b]);
    let manifest_hash = store.write_snapshot(&manifest);
    let removed = store.gc(&vec![]).expect("gc");
    assert!(removed >= 1, "garbage should be collected");
    assert!(store.contains(&a), "snapshot object a survives gc");
    assert!(store.contains(&b), "snapshot object b survives gc");
    assert!(!store.contains(&garbage), "unreferenced object collected");
    let loaded = store.current_snapshot().expect("present");
    assert_eq!(loaded, manifest);
    assert!(store.manifests.contains_key(&manifest_hash));
}

#[test]
fn gc_prunes_a_manifest_that_its_package_has_replaced() {
    let mut store = temp_store();
    let a = store.put_object(&plain(1.0));
    let b = store.put_object(&plain(2.0));
    let m1 = sample_manifest(&[a, b]);
    let h1 = store.write_snapshot(&m1);
    let m2 = sample_manifest(&[b, a]);
    let h2 = store.write_snapshot(&m2);
    assert_ne!(h1, h2);
    assert_eq!(store.all_manifest_hashes().len(), 2);
    store.gc(&vec![]).expect("gc");
    assert_eq!(store.all_manifest_hashes(), vec![h2]);
    assert_eq!(store.current_snapshot().expect("present"), m2);
}

#[test]
fn packages_keep_their_snapshots_apart() {
    let mut store = temp_store();
    let a = store.put_object(&plain(1.0));
    let b = store.put_object(&plain(2.0));
    let mut m1 = sample_manifest(&[a, b]);
    m1.package_name = "first".to_string();
    let mut m2 = sample_manifest(&[a, b]);
    m2.package_name = "second".to_string();
    store.write_snapshot(&m1);
    store.write_snapshot(&m2);
    store.gc(&vec![]).expect("gc");
    assert_eq!(store.current_snapshot_for("first"), Some(m1));
    assert_eq!(store.current_snapshot_for("second"), Some(m2));
    assert_eq!(store.snapshot_pointers().len(), 2);
    assert_eq!(store.current_snapshots().len(), 2);
}

#[test]
fn identical_manifests_hash_identically() {
    let objects = [Digest::of(b"x"), Digest::of(b"y")];
    let a = sample_manifest(&objects);
    let b = sample_manifest(&objects);
    assert_eq!(a.hash(), b.hash());
}

#[test]
fn the_manifest_is_written_before_the_pointer() {
    let mut store = temp_store();
    store.take_changes();
    let manifest = sample_manifest(&[Digest::of(b"x"), Digest::of(b"y")]);
    let hash = store.write_snapshot(&manifest);
    let changes = store.take_changes();
    let position = |path: &str| {
        changes
            .iter()
            .position(|c| matches!(c, FileChange::Write(p, _) if p == path))
            .expect("written")
    };
    assert!(position(&store.meta_path(&hash)) < position("/store/snapshots/demo"));
}

// ── pre-link forms ──────────────────────────────────────────────────────────

fn sample_form() -> Vec<u8> {
    let module = Module { name: "test".to_string(), doc: None, items: vec![] };
    let (_, form) = compile_module_capturing(&module, CompileOptions::default()).expect("compile");
    form.encode().expect("encode")
}

#[test]
fn a_form_is_read_back_and_a_broken_one_is_removed() {
    let mut store = temp_store();
    let bytes = sample_form();
    let hash = store.put_prelink(&bytes);
    assert_eq!(hash, Digest::of(&bytes));
    assert_eq!(store.all_prelink_hashes(), vec![hash]);
    let form = store.get_prelink(&hash).expect("present");
    assert_eq!(form.encode().expect("encode"), bytes);

    store.prelinks.insert(hash, flip_last(&bytes));
    assert!(store.get_prelink(&hash).is_none());
    assert!(store.all_prelink_hashes().is_empty());
    assert!(store.verify().is_clean());
}

#[test]
fn verify_flags_broken_and_missing_forms() {
    let mut store = temp_store();
    let object = store.put_object(&plain(1.0));
    let bytes = sample_form();
    let hash = store.put_prelink(&bytes);
    let mut manifest = manifest_naming("demo", object);
    manifest.modules[0].prelink = Some(*hash.as_bytes());
    store.write_snapshot(&manifest);
    assert!(store.verify().is_clean());

    store.prelinks.insert(hash, flip_last(&bytes));
    let report = store.verify();
    assert_eq!(report.corrupt.len(), 1);
    assert_eq!(report.corrupt[0].0, hash);

    let nonsense = Digest::of(b"no form");
    store.prelinks.insert(hash, bytes.clone());
    store.prelinks.insert(nonsense, b"no form".to_vec());
    let report = store.verify();
    assert_eq!(report.corrupt.len(), 1);
    assert_eq!(report.corrupt[0].1, "not a prelink blob (bad magic)");

    store.prelinks.remove(&nonsense);
    store.prelinks.remove(&hash);
    let report = store.verify();
    assert!(report.corrupt.is_empty());
    assert_eq!(report.dangling, vec![hash]);
}

#[test]
fn gc_leaves_forms_alone() {
    let mut store = temp_store();
    let hash = store.put_prelink(&sample_form());
    store.gc(&vec![]).expect("gc");
    assert_eq!(store.all_prelink_hashes(), vec![hash]);
}

// ── tags ────────────────────────────────────────────────────────────────────

fn manifest_naming(package: &str, object: Digest) -> BuildManifest {
    let mut main = manifest_module("workspace::t::main", 1);
    main.objects = vec![*object.as_bytes()];
    BuildManifest {
        version: MANIFEST_VERSION,
        package_name: package.to_string(),
        dispatch_surface_hash: [0u8; 32],
        natives_contract_hash: [0u8; 32],
        core_cache_key: [0u8; 32],
        modules: vec![main],
    }
}

#[test]
fn tag_roundtrips_and_lists() {
    let mut store = temp_store();
    let a = store.put_object(&plain(1.0));
    let manifest = manifest_naming("demo", a);
    let hash = store.write_snapshot(&manifest);
    store.write_tag("v1.0", &hash).expect("tag");
    store.write_tag("release-candidate", &hash).expect("tag");
    assert_eq!(store.read_tag("v1.0"), Some(hash));
    assert_eq!(store.read_tag("missing"), None);
    let tags = store.list_tags();
    assert_eq!(
        tags,
        vec![
            ("release-candidate".to_string(), hash),
            ("v1.0".to_string(), hash),
        ]
    );
}

#[test]
fn invalid_tag_names_are_rejected() {
    let mut store = temp_store();
    let hash = Digest::of(b"m");
    for bad in ["", ".", "..", "a/b", "a b", "a:b", "a\\b", "tag*"] {
        assert!(!is_valid_tag_name(bad), "{bad:?} should be an invalid tag name");
        assert!(
            matches!(
                store.write_tag(bad, &hash),
                Err(DiskStoreError::InvalidTagName(_))
            ),
            "{bad:?} should be rejected by write_tag"
        );
    }
    for good in ["v1", "v1.2.3", "release_candidate", "a-b.c_d"] {
        assert!(is_valid_tag_name(good), "{good:?} should be valid");
    }
}

#[test]
fn gc_keeps_a_tagged_snapshot_even_when_superseded() {
    let mut store = temp_store();
    let a = store.put_object(&plain(1.0));
    let b = store.put_object(&plain(2.0));
    let m1 = manifest_naming("first", a);
    let h1 = store.write_snapshot(&m1);
    store.write_tag("keep", &h1).expect("tag");
    let m2 = manifest_naming("second", b);
    let h2 = store.write_snapshot(&m2);
    assert_ne!(h1, h2);
    store.gc(&vec![]).expect("gc");
    assert!(store.contains(&a), "tagged snapshot object survives gc");
    assert!(store.contains(&b), "current snapshot object survives gc");
    assert!(store.manifests.contains_key(&h1), "tagged manifest survives gc");
    assert!(store.manifests.contains_key(&h2), "current manifest survives gc");
    assert_eq!(store.read_tag("keep"), Some(h1));
}

#[test]
fn a_tag_alone_keeps_a_replaced_snapshot() {
    let mut store = temp_store();
    let a = store.put_object(&plain(1.0));
    let b = store.put_object(&plain(2.0));
    let h1 = store.write_snapshot(&manifest_naming("demo", a));
    store.write_tag("keep", &h1).expect("tag");
    store.write_snapshot(&manifest_naming("demo", b));
    store.gc(&vec![]).expect("gc");
    assert!(store.contains(&a));
    assert!(store.manifests.contains_key(&h1));
}

#[test]
fn verify_flags_a_dangling_tag() {
    let mut store = temp_store();
    let phantom = Digest::of(b"never written");
    store.write_tag("broken", &phantom).expect("tag");
    let report = store.verify();
    assert!(!report.is_clean(), "dangling tag makes the store unclean");
    assert!(
        report.bad_tags.iter().any(|(name, _)| name == "broken"),
        "verify flags the dangling tag: {:?}",
        report.bad_tags
    );
}

#[test]
fn verify_flags_a_malformed_tag_file() {
    let mut store = temp_store();
    store.tags.insert("garbage".to_string(), "not a tag\n".to_string());
    let report = store.verify();
    assert!(
        report.bad_tags.iter().any(|(name, _)| name == "garbage"),
        "verify flags the malformed tag: {:?}",
        report.bad_tags
    );
}
