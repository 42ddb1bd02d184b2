//! Build manifests: a canonical record of one successful build, named by the
//! hash of its encoding.

use vstd::prelude::*;
use vstd::utf8::encode_utf8;

use crate::build_result::{BuildResult, ModuleOutput};
use crate::compiler::assemble::text_map;
use crate::compiler::module_output::{name_map, parent_map, MigrationRecord};
use crate::compiler::prelink::copy_pairs;
use crate::digest::{blake3_hash, Digest};
use crate::module_interface::{InterfaceSummary, ItemKindTag, ItemSummary};
use crate::module_paths::{copy_texts, texts};
use crate::order::bytes_lt;
use crate::ordmap::{entries_map, entry_found, has_key, key_position, keys_increase, Key};
use crate::text::{owned, push_decimal, push_text};
use crate::wire::{contents, Reader, Wire, WireError};

verus! {

broadcast use {vstd::string::group_string_axioms, vstd::array::group_array_axioms};

/// The manifest format version that is written and read.
pub const MANIFEST_VERSION: u8 = 4;

/// The directory of the root pointers, one file for each package.
pub const SNAPSHOT_POINTER: &'static str = "snapshots";

/// The four bytes that every manifest begins with.
pub open spec fn manifest_magic() -> Seq<u8> {
    seq![0x41u8, 0x42u8, 0x53u8, 0x4du8]
}

/// A canonical, versioned record of one successful build.
#[derive(Debug, PartialEq, Eq)]
pub struct BuildManifest {
    /// The format version.
    pub version: u8,
    /// The package that was built.
    pub package_name: String,
    /// The hash of the dispatch surface.
    pub dispatch_surface_hash: [u8; 32],
    /// The hash of the native contract.
    pub natives_contract_hash: [u8; 32],
    /// The cache key of the builtin modules.
    pub core_cache_key: [u8; 32],
    /// One record for each module, sorted by module identity.
    pub modules: Vec<ManifestModule>,
}

/// One module's part of a manifest.
#[derive(Debug, PartialEq, Eq)]
pub struct ManifestModule {
    /// The canonical module identity.
    pub module: String,
    /// The hash of the resolved syntax tree.
    pub resolved_ast_hash: [u8; 32],
    /// The hash of the interface.
    pub interface_hash: [u8; 32],
    /// The modules it depends on, sorted.
    pub deps: Vec<String>,
    /// The objects it produced, sorted.
    pub objects: Vec<[u8; 32]>,
    /// The names it binds, sorted by name.
    pub names: Vec<(String, [u8; 32])>,
    /// The canonical signatures of its names, sorted by name.
    pub signatures: Vec<(String, String)>,
    /// The incremental-cache key; zero for builtin modules.
    pub cache_key: [u8; 32],
    /// The bindings of other modules that it was linked against, sorted.
    pub consumed_links: Vec<(String, [u8; 32])>,
    /// Its state migrations `(cell, old, new)`, sorted.
    pub migrations: Vec<(String, String, String)>,
    /// Its lambdas with the name of the function each stands in, sorted by
    /// hash.
    pub lambda_parents: Vec<([u8; 32], String)>,
    /// The entry point, if it has one.
    pub entry_point: Option<[u8; 32]>,
    /// The source file relative to the package's source directory; empty for
    /// builtin modules.
    pub source_path: String,
    /// The top-level items, sorted by ident.
    pub items: Vec<ManifestItem>,
    /// Its pre-link form, if it has one.
    pub prelink: Option<[u8; 32]>,
}

/// One top-level item of a module.
#[derive(Debug, PartialEq, Eq)]
pub struct ManifestItem {
    /// The ident path relative to the module.
    pub ident: Vec<String>,
    /// The sort of the item.
    pub kind: ItemKindTag,
    /// The object behind a value item.
    pub hash: Option<[u8; 32]>,
    /// The nominal uuid, rendered; empty for items that have none.
    pub uuid: String,
    /// The byte range of the definition.
    pub span: (u32, u32),
    /// A one-line rendering for people.
    pub summary: String,
}

/// Why bytes are not a manifest.
#[derive(Debug, Clone, Copy, PartialEq, Eq, Structural)]
pub enum ManifestError {
    /// The input ended before the encoding was complete.
    Truncated,
    /// The input did not start with the manifest magic.
    BadMagic,
    /// Another format version.
    BadVersion(u8),
    /// Text was not valid UTF-8.
    InvalidUtf8,
    /// An unexpected tag byte.
    BadTag(u8),
    /// Bytes remained after a complete manifest.
    TrailingBytes,
}

// ── contents ────────────────────────────────────────────────────────────────

/// What a [`ManifestItem`] says.
pub struct ItemView {
    /// The ident path relative to the module.
    pub ident: Seq<Seq<char>>,
    /// The sort of the item.
    pub kind: ItemKindTag,
    /// The object behind a value item.
    pub hash: Option<Seq<u8>>,
    /// The nominal uuid.
    pub uuid: Seq<char>,
    /// The byte range of the definition.
    pub span: (u32, u32),
    /// A one-line rendering for people.
    pub summary: Seq<char>,
}

/// What a [`ManifestModule`] says.
pub struct ModuleView {
    /// The canonical module identity.
    pub module: Seq<char>,
    /// The hash of the resolved syntax tree.
    pub resolved_ast_hash: Seq<u8>,
    /// The hash of the interface.
    pub interface_hash: Seq<u8>,
    /// The modules it depends on.
    pub deps: Seq<Seq<char>>,
    /// The objects it produced.
    pub objects: Seq<Seq<u8>>,
    /// The names it binds.
    pub names: Seq<(Seq<char>, Seq<u8>)>,
    /// The canonical signatures of its names.
    pub signatures: Seq<(Seq<char>, Seq<char>)>,
    /// The incremental-cache key.
    pub cache_key: Seq<u8>,
    /// The bindings of other modules that it was linked against.
    pub consumed_links: Seq<(Seq<char>, Seq<u8>)>,
    /// Its state migrations.
    pub migrations: Seq<(Seq<char>, Seq<char>, Seq<char>)>,
    /// Its lambdas with the name of the function each stands in.
    pub lambda_parents: Seq<(Seq<u8>, Seq<char>)>,
    /// The entry point.
    pub entry_point: Option<Seq<u8>>,
    /// The source file.
    pub source_path: Seq<char>,
    /// The top-level items.
    pub items: Seq<ItemView>,
    /// Its pre-link form.
    pub prelink: Option<Seq<u8>>,
}

/// What a [`BuildManifest`] says.
pub struct ManifestView {
    /// The format version.
    pub version: u8,
    /// The package that was built.
    pub package_name: Seq<char>,
    /// The hash of the dispatch surface.
    pub dispatch_surface_hash: Seq<u8>,
    /// The hash of the native contract.
    pub natives_contract_hash: Seq<u8>,
    /// The cache key of the builtin modules.
    pub core_cache_key: Seq<u8>,
    /// One record for each module.
    pub modules: Seq<ModuleView>,
}

/// `a` before `b` before `c`, however they are grouped.
proof fn cat_assoc(a: Seq<u8>, b: Seq<u8>, c: Seq<u8>)
    ensures
        a + (b + c) == (a + b) + c,
{
    assert(a + (b + c) =~= (a + b) + c);
}

// ── the encoding of items ───────────────────────────────────────────────────

/// The parts of an item in the order they are written.
pub type ItemParts = (Vec<String>, (ItemKindTag, (Option<[u8; 32]>, (String, ((u32, u32), String)))));

/// The parts of an item's content in the order they are written.
pub open spec fn item_parts(w: ItemView) -> (
    Seq<Seq<char>>,
    (ItemKindTag, (Option<Seq<u8>>, (Seq<char>, ((u32, u32), Seq<char>)))),
) {
    (w.ident, (w.kind, (w.hash, (w.uuid, (w.span, w.summary)))))
}

/// The item made of some parts.
pub open spec fn item_of(
    p: (Seq<Seq<char>>, (ItemKindTag, (Option<Seq<u8>>, (Seq<char>, ((u32, u32), Seq<char>))))),
) -> ItemView {
    ItemView {
        ident: p.0,
        kind: p.1.0,
        hash: p.1.1.0,
        uuid: p.1.1.1.0,
        span: p.1.1.1.1.0,
        summary: p.1.1.1.1.1,
    }
}

impl Wire for ManifestItem {
    type W = ItemView;

    open spec fn content(&self) -> ItemView {
        ItemView {
            ident: self.ident.content(),
            kind: self.kind,
            hash: self.hash.content(),
            uuid: self.uuid@,
            span: self.span,
            summary: self.summary@,
        }
    }

    open spec fn fits(w: ItemView) -> bool {
        ItemParts::fits(item_parts(w))
    }

    open spec fn bytes(w: ItemView) -> Seq<u8> {
        ItemParts::bytes(item_parts(w))
    }

    open spec fn parse(s: Seq<u8>) -> Result<(ItemView, int), WireError> {
        match ItemParts::parse(s) {
            Ok((p, n)) => Ok((item_of(p), n)),
            Err(e) => Err(e),
        }
    }

    proof fn reads_back(w: ItemView, tail: Seq<u8>) {
        ItemParts::reads_back(item_parts(w), tail);
    }

    proof fn reads_only_encodings(s: Seq<u8>) {
        ItemParts::reads_only_encodings(s);
    }

    proof fn cut_short(s: Seq<u8>, k: int) {
        ItemParts::cut_short(s, k);
    }

    fn put(&self, out: &mut Vec<u8>) {
        self.ident.put(out);
        self.kind.put(out);
        self.hash.put(out);
        self.uuid.put(out);
        self.span.put(out);
        self.summary.put(out);
        proof {
            let w = self.content();
            let s0 = old(out)@;
            let a0 = Vec::<String>::bytes(w.ident);
            let a1 = ItemKindTag::bytes(w.kind);
            let a2 = Option::<[u8; 32]>::bytes(w.hash);
            let a3 = String::bytes(w.uuid);
            let a4 = <(u32, u32) as Wire>::bytes(w.span);
            let a5 = String::bytes(w.summary);
            cat_assoc(s0, a0, a1 + (a2 + (a3 + (a4 + a5))));
            cat_assoc(s0 + a0, a1, a2 + (a3 + (a4 + a5)));
            cat_assoc(s0 + a0 + a1, a2, a3 + (a4 + a5));
            cat_assoc(s0 + a0 + a1 + a2, a3, a4 + a5);
            cat_assoc(s0 + a0 + a1 + a2 + a3, a4, a5);
        }
    }

    fn get(r: &mut Reader<'_>) -> (res: Result<ManifestItem, WireError>) {
        let (ident, (kind, (hash, (uuid, (span, summary))))) = ItemParts::get(r)?;
        Ok(ManifestItem { ident, kind, hash, uuid, span, summary })
    }
}

// ── the encoding of modules ─────────────────────────────────────────────────

/// The parts of a module record in the order they are written.
pub type ModuleParts = (String, ([u8; 32], ([u8; 32], (Vec<String>, (Vec<[u8; 32]>, (Vec<(String, [u8; 32])>, (Vec<(String, String)>, ([u8; 32], (Vec<(String, [u8; 32])>, (Vec<(String, String, String)>, (Vec<([u8; 32], String)>, (Option<[u8; 32]>, (String, (Vec<ManifestItem>, Option<[u8; 32]>))))))))))))));

/// The contents of the parts of a module record.
pub type ModuleContents = (Seq<char>, (Seq<u8>, (Seq<u8>, (Seq<Seq<char>>, (Seq<Seq<u8>>, (Seq<(Seq<char>, Seq<u8>)>, (Seq<(Seq<char>, Seq<char>)>, (Seq<u8>, (Seq<(Seq<char>, Seq<u8>)>, (Seq<(Seq<char>, Seq<char>, Seq<char>)>, (Seq<(Seq<u8>, Seq<char>)>, (Option<Seq<u8>>, (Seq<char>, (Seq<ItemView>, Option<Seq<u8>>))))))))))))));

/// The parts of a module's content in the order they are written.
pub open spec fn module_parts(w: ModuleView) -> ModuleContents {
    (w.module, (w.resolved_ast_hash, (w.interface_hash, (w.deps, (w.objects, (w.names, (w.signatures, (w.cache_key, (w.consumed_links, (w.migrations, (w.lambda_parents, (w.entry_point, (w.source_path, (w.items, w.prelink))))))))))))))
}

/// The module record made of some parts.
pub open spec fn module_of(p: ModuleContents) -> ModuleView {
    ModuleView {
        module: p.0,
        resolved_ast_hash: p.1.0,
        interface_hash: p.1.1.0,
        deps: p.1.1.1.0,
        objects: p.1.1.1.1.0,
        names: p.1.1.1.1.1.0,
        signatures: p.1.1.1.1.1.1.0,
        cache_key: p.1.1.1.1.1.1.1.0,
        consumed_links: p.1.1.1.1.1.1.1.1.0,
        migrations: p.1.1.1.1.1.1.1.1.1.0,
        lambda_parents: p.1.1.1.1.1.1.1.1.1.1.0,
        entry_point: p.1.1.1.1.1.1.1.1.1.1.1.0,
        source_path: p.1.1.1.1.1.1.1.1.1.1.1.1.0,
        items: p.1.1.1.1.1.1.1.1.1.1.1.1.1.0,
        prelink: p.1.1.1.1.1.1.1.1.1.1.1.1.1.1,
    }
}

impl Wire for ManifestModule {
    type W = ModuleView;

    open spec fn content(&self) -> ModuleView {
        ModuleView {
            module: self.module.content(),
            resolved_ast_hash: self.resolved_ast_hash.content(),
            interface_hash: self.interface_hash.content(),
            deps: self.deps.content(),
            objects: self.objects.content(),
            names: self.names.content(),
            signatures: self.signatures.content(),
            cache_key: self.cache_key.content(),
            consumed_links: self.consumed_links.content(),
            migrations: self.migrations.content(),
            lambda_parents: self.lambda_parents.content(),
            entry_point: self.entry_point.content(),
            source_path: self.source_path.content(),
            items: self.items.content(),
            prelink: self.prelink.content(),
        }
    }

    open spec fn fits(w: ModuleView) -> bool {
        ModuleParts::fits(module_parts(w))
    }

    open spec fn bytes(w: ModuleView) -> Seq<u8> {
        ModuleParts::bytes(module_parts(w))
    }

    open spec fn parse(s: Seq<u8>) -> Result<(ModuleView, int), WireError> {
        match ModuleParts::parse(s) {
            Ok((p, n)) => Ok((module_of(p), n)),
            Err(e) => Err(e),
        }
    }

    proof fn reads_back(w: ModuleView, tail: Seq<u8>) {
        ModuleParts::reads_back(module_parts(w), tail);
    }

    proof fn reads_only_encodings(s: Seq<u8>) {
        ModuleParts::reads_only_encodings(s);
    }

    proof fn cut_short(s: Seq<u8>, k: int) {
        ModuleParts::cut_short(s, k);
    }

    fn put(&self, out: &mut Vec<u8>) {
        self.module.put(out);
        self.resolved_ast_hash.put(out);
        self.interface_hash.put(out);
        self.deps.put(out);
        self.objects.put(out);
        self.names.put(out);
        self.signatures.put(out);
        self.cache_key.put(out);
        self.consumed_links.put(out);
        self.migrations.put(out);
        self.lambda_parents.put(out);
        self.entry_point.put(out);
        self.source_path.put(out);
        self.items.put(out);
        self.prelink.put(out);
        proof {
            let w = self.content();
            let a0 = <String as Wire>::bytes(w.module);
            let a1 = <[u8; 32] as Wire>::bytes(w.resolved_ast_hash);
            let a2 = <[u8; 32] as Wire>::bytes(w.interface_hash);
            let a3 = <Vec<String> as Wire>::bytes(w.deps);
            let a4 = <Vec<[u8; 32]> as Wire>::bytes(w.objects);
            let a5 = <Vec<(String, [u8; 32])> as Wire>::bytes(w.names);
            let a6 = <Vec<(String, String)> as Wire>::bytes(w.signatures);
            let a7 = <[u8; 32] as Wire>::bytes(w.cache_key);
            let a8 = <Vec<(String, [u8; 32])> as Wire>::bytes(w.consumed_links);
            let a9 = <Vec<(String, String, String)> as Wire>::bytes(w.migrations);
            let a10 = <Vec<([u8; 32], String)> as Wire>::bytes(w.lambda_parents);
            let a11 = <Option<[u8; 32]> as Wire>::bytes(w.entry_point);
            let a12 = <String as Wire>::bytes(w.source_path);
            let a13 = <Vec<ManifestItem> as Wire>::bytes(w.items);
            let a14 = <Option<[u8; 32]> as Wire>::bytes(w.prelink);
            let t14 = a14;
            let t13 = a13 + t14;
            let t12 = a12 + t13;
            let t11 = a11 + t12;
            let t10 = a10 + t11;
            let t9 = a9 + t10;
            let t8 = a8 + t9;
            let t7 = a7 + t8;
            let t6 = a6 + t7;
            let t5 = a5 + t6;
            let t4 = a4 + t5;
            let t3 = a3 + t4;
            let t2 = a2 + t3;
            let t1 = a1 + t2;
            let t0 = a0 + t1;
            let s0 = old(out)@;
            cat_assoc(s0, a0, t1);
            let s1 = s0 + a0;
            cat_assoc(s1, a1, t2);
            let s2 = s1 + a1;
            cat_assoc(s2, a2, t3);
            let s3 = s2 + a2;
            cat_assoc(s3, a3, t4);
            let s4 = s3 + a3;
            cat_assoc(s4, a4, t5);
            let s5 = s4 + a4;
            cat_assoc(s5, a5, t6);
            let s6 = s5 + a5;
            cat_assoc(s6, a6, t7);
            let s7 = s6 + a6;
            cat_assoc(s7, a7, t8);
            let s8 = s7 + a7;
            cat_assoc(s8, a8, t9);
            let s9 = s8 + a8;
            cat_assoc(s9, a9, t10);
            let s10 = s9 + a9;
            cat_assoc(s10, a10, t11);
            let s11 = s10 + a10;
            cat_assoc(s11, a11, t12);
            let s12 = s11 + a11;
            cat_assoc(s12, a12, t13);
            let s13 = s12 + a12;
            cat_assoc(s13, a13, t14);
            let s14 = s13 + a13;
        }
    }

    fn get(r: &mut Reader<'_>) -> (res: Result<ManifestModule, WireError>) {
        let (module, (resolved_ast_hash, (interface_hash, (deps, (objects, (names, (signatures, (cache_key, (consumed_links, (migrations, (lambda_parents, (entry_point, (source_path, (items, prelink)))))))))))))) = ModuleParts::get(r)?;
        Ok(ManifestModule {
            module,
            resolved_ast_hash,
            interface_hash,
            deps,
            objects,
            names,
            signatures,
            cache_key,
            consumed_links,
            migrations,
            lambda_parents,
            entry_point,
            source_path,
            items,
            prelink,
        })
    }
}

// ── the encoding of manifests ───────────────────────────────────────────────

/// The parts of a manifest behind its version.
pub type BodyParts = (String, ([u8; 32], ([u8; 32], ([u8; 32], Vec<ManifestModule>))));

/// The contents of the parts of a manifest behind its version.
pub type BodyContents = (Seq<char>, (Seq<u8>, (Seq<u8>, (Seq<u8>, Seq<ModuleView>))));

/// The parts of a manifest's content behind its version.
pub open spec fn body_parts(m: ManifestView) -> BodyContents {
    (
        m.package_name,
        (m.dispatch_surface_hash, (m.natives_contract_hash, (m.core_cache_key, m.modules))),
    )
}

/// The manifest of a version with some parts.
pub open spec fn manifest_of(version: u8, p: BodyContents) -> ManifestView {
    ManifestView {
        version,
        package_name: p.0,
        dispatch_surface_hash: p.1.0,
        natives_contract_hash: p.1.1.0,
        core_cache_key: p.1.1.1.0,
        modules: p.1.1.1.1,
    }
}

/// Whether every length in a manifest fits its `u32` prefix.
#[verifier::opaque]
pub open spec fn manifest_fits(m: ManifestView) -> bool {
    BodyParts::fits(body_parts(m))
}

/// The encoding of the parts of a manifest behind its version.
#[verifier::opaque]
pub open spec fn body_bytes(p: BodyContents) -> Seq<u8> {
    BodyParts::bytes(p)
}

/// Reading the parts of a manifest behind its version.
#[verifier::opaque]
pub open spec fn body_parse(s: Seq<u8>) -> Result<(BodyContents, int), WireError> {
    BodyParts::parse(s)
}

proof fn lemma_body_reads_back(m: ManifestView, tail: Seq<u8>)
    requires
        manifest_fits(m),
    ensures
        body_parse(body_bytes(body_parts(m)) + tail) == Ok::<(BodyContents, int), WireError>(
            (body_parts(m), body_bytes(body_parts(m)).len() as int),
        ),
{
    reveal(manifest_fits);
    reveal(body_bytes);
    reveal(body_parse);
    BodyParts::reads_back(body_parts(m), tail);
}

proof fn lemma_body_reads_only_encodings(s: Seq<u8>)
    ensures
        body_parse(s) matches Ok((p, n)) ==> 0 <= n <= s.len() && manifest_fits(
            manifest_of(MANIFEST_VERSION, p),
        ) && body_bytes(p) == s.take(n),
{
    reveal(manifest_fits);
    reveal(body_bytes);
    reveal(body_parse);
    BodyParts::reads_only_encodings(s);
}

/// The encoding of a manifest.
pub open spec fn manifest_bytes(m: ManifestView) -> Seq<u8> {
    manifest_magic() + seq![m.version] + body_bytes(body_parts(m))
}

/// How a fault of the shared encoding is reported for a manifest.
pub open spec fn manifest_fault(e: WireError) -> ManifestError {
    match e {
        WireError::InvalidUtf8 => ManifestError::InvalidUtf8,
        WireError::BadTag(t) => ManifestError::BadTag(t),
        _ => ManifestError::Truncated,
    }
}

/// The manifest that a byte string encodes, or why it encodes none: the magic,
/// then the version, then the parts, then nothing more.
pub open spec fn manifest_parse(s: Seq<u8>) -> Result<ManifestView, ManifestError> {
    if s.len() < 4 {
        Err(ManifestError::Truncated)
    } else if s.take(4) != manifest_magic() {
        Err(ManifestError::BadMagic)
    } else if s.len() < 5 {
        Err(ManifestError::Truncated)
    } else if s[4] != MANIFEST_VERSION {
        Err(ManifestError::BadVersion(s[4]))
    } else {
        match body_parse(s.skip(5)) {
            Err(e) => Err(manifest_fault(e)),
            Ok((p, n)) => if 5 + n != s.len() {
                Err(ManifestError::TrailingBytes)
            } else {
                Ok(manifest_of(s[4], p))
            },
        }
    }
}

/// A manifest of the current version reads back as it was written.
pub proof fn manifest_reads_back(m: ManifestView)
    requires
        manifest_fits(m),
        m.version == MANIFEST_VERSION,
    ensures
        manifest_parse(manifest_bytes(m)) == Ok::<ManifestView, ManifestError>(m),
{
    let body = body_bytes(body_parts(m));
    let s = manifest_bytes(m);
    lemma_body_reads_back(m, seq![]);
    assert(body + seq![] =~= body);
    assert(s.take(4) =~= manifest_magic());
    assert(s.skip(5) =~= body);
}

/// What reads back as a manifest is that manifest's encoding, to the byte.
pub proof fn manifest_reads_only_encodings(s: Seq<u8>)
    ensures
        manifest_parse(s) matches Ok(m) ==> manifest_bytes(m) == s && manifest_fits(m) && m.version
            == MANIFEST_VERSION,
{
    if manifest_parse(s) is Ok {
        lemma_body_reads_only_encodings(s.skip(5));
        let (p, n) = body_parse(s.skip(5))->Ok_0;
        assert(s.skip(5).take(n) =~= s.skip(5));
        assert(manifest_bytes(manifest_of(s[4], p)) =~= s);
    }
}

/// Bytes behind a complete manifest are refused as trailing.
pub proof fn manifest_refuses_trailing(m: ManifestView, tail: Seq<u8>)
    requires
        manifest_fits(m),
        m.version == MANIFEST_VERSION,
        tail.len() > 0,
    ensures
        manifest_parse(manifest_bytes(m) + tail) == Err::<ManifestView, ManifestError>(
            ManifestError::TrailingBytes,
        ),
{
    let body = body_bytes(body_parts(m));
    let s = manifest_bytes(m) + tail;
    lemma_body_reads_back(m, tail);
    assert(s.take(4) =~= manifest_magic());
    assert(s.skip(5) =~= body + tail);
}

/// A manifest that was cut short is refused as such.
pub proof fn manifest_refuses_truncation(m: ManifestView, k: int)
    requires
        manifest_fits(m),
        m.version == MANIFEST_VERSION,
        0 <= k < manifest_bytes(m).len(),
    ensures
        manifest_parse(manifest_bytes(m).take(k)) == Err::<ManifestView, ManifestError>(
            ManifestError::Truncated,
        ),
{
    let s = manifest_bytes(m);
    let cut = s.take(k);
    let body = body_bytes(body_parts(m));
    if k >= 5 {
        assert(cut.take(4) =~= manifest_magic());
        assert(s.skip(5) =~= body);
        assert(cut.skip(5) =~= body.take(k - 5));
        lemma_body_reads_back(m, seq![]);
        assert(body + seq![] =~= body);
        reveal(body_parse);
        BodyParts::cut_short(body, k - 5);
        BodyParts::reads_only_encodings(body.take(k - 5));
    } else if k == 4 {
        assert(cut.take(4) =~= manifest_magic());
    }
}

/// Whatever reads as a manifest does not once bytes are cut off or added: it ends
/// too early, or too late.
pub proof fn manifest_has_no_other_length(s: Seq<u8>, k: int, tail: Seq<u8>)
    requires
        manifest_parse(s) is Ok,
        0 <= k < s.len(),
        tail.len() > 0,
    ensures
        manifest_parse(s.take(k)) == Err::<ManifestView, ManifestError>(ManifestError::Truncated),
        manifest_parse(s + tail) == Err::<ManifestView, ManifestError>(
            ManifestError::TrailingBytes,
        ),
{
    manifest_reads_only_encodings(s);
    let m = manifest_parse(s)->Ok_0;
    manifest_refuses_truncation(m, k);
    manifest_refuses_trailing(m, tail);
}

impl View for BuildManifest {
    type V = ManifestView;

    open spec fn view(&self) -> ManifestView {
        ManifestView {
            version: self.version,
            package_name: self.package_name@,
            dispatch_surface_hash: self.dispatch_surface_hash@,
            natives_contract_hash: self.natives_contract_hash@,
            core_cache_key: self.core_cache_key@,
            modules: self.modules.content(),
        }
    }
}

impl BuildManifest {
    /// The canonical encoding.
    pub fn encode(&self) -> (r: Vec<u8>)
        ensures
            r@ == manifest_bytes(self@),
    {
        let mut out: Vec<u8> = Vec::new();
        out.push(0x41);
        out.push(0x42);
        out.push(0x53);
        out.push(0x4d);
        assert(out@ =~= manifest_magic());
        out.push(self.version);
        assert(out@ =~= manifest_magic() + seq![self.version]);
        self.package_name.put(&mut out);
        self.dispatch_surface_hash.put(&mut out);
        self.natives_contract_hash.put(&mut out);
        self.core_cache_key.put(&mut out);
        self.modules.put(&mut out);
        proof {
            reveal(body_bytes);
            let m = self@;
            let s0 = manifest_magic() + seq![m.version];
            let a0 = String::bytes(m.package_name);
            let a1 = m.dispatch_surface_hash;
            let a2 = m.natives_contract_hash;
            let a3 = m.core_cache_key;
            let a4 = Vec::<ManifestModule>::bytes(m.modules);
            cat_assoc(s0, a0, a1 + (a2 + (a3 + a4)));
            cat_assoc(s0 + a0, a1, a2 + (a3 + a4));
            cat_assoc(s0 + a0 + a1, a2, a3 + a4);
            cat_assoc(s0 + a0 + a1 + a2, a3, a4);
        }
        out
    }

    /// Read the canonical encoding.
    pub fn decode(bytes: &[u8]) -> (r: Result<BuildManifest, ManifestError>)
        ensures
            match manifest_parse(bytes@) {
                Ok(m) => r is Ok && r->Ok_0@ == m,
                Err(e) => r matches Err(f) && f == e,
            },
    {
        let mut r = Reader::new(bytes);
        let magic = match r.take(4) {
            Ok(raw) => raw,
            Err(_) => return Err(ManifestError::Truncated),
        };
        assert(magic@ == bytes@.take(4));
        if magic[0] != 0x41 || magic[1] != 0x42 || magic[2] != 0x53 || magic[3] != 0x4d {
            assert(magic@ != manifest_magic());
            return Err(ManifestError::BadMagic);
        }
        assert(magic@ =~= manifest_magic());
        let version = match u8::get(&mut r) {
            Ok(v) => v,
            Err(_) => return Err(ManifestError::Truncated),
        };
        if version != MANIFEST_VERSION {
            return Err(ManifestError::BadVersion(version));
        }
        assert(r.rest() =~= bytes@.skip(5));
        proof {
            reveal(body_parse);
            lemma_body_reads_only_encodings(bytes@.skip(5));
        }
        match BodyParts::get(&mut r) {
            Err(WireError::InvalidUtf8) => Err(ManifestError::InvalidUtf8),
            Err(WireError::BadTag(t)) => Err(ManifestError::BadTag(t)),
            Err(_) => Err(ManifestError::Truncated),
            Ok(parts) => {
                if r.remaining() != 0 {
                    return Err(ManifestError::TrailingBytes);
                }
                let (
                    package_name,
                    (dispatch_surface_hash, (natives_contract_hash, (core_cache_key, modules))),
                ) = parts;
                Ok(
                    BuildManifest {
                        version,
                        package_name,
                        dispatch_surface_hash,
                        natives_contract_hash,
                        core_cache_key,
                        modules,
                    },
                )
            },
        }
    }

    /// The hash of the canonical encoding: the identity of the manifest.
    pub fn hash(&self) -> (r: Digest)
        ensures
            r@ == blake3_hash(manifest_bytes(self@)),
    {
        let bytes = self.encode();
        Digest::of(bytes.as_slice())
    }
}

// ── folding a build into a manifest ─────────────────────────────────────────

/// The fully-qualified name of an item: the module identity and the ident
/// path, joined by `::`.
pub open spec fn qualified_name(module: Seq<char>, ident: Seq<Seq<char>>) -> Seq<char>
    decreases ident.len(),
{
    if ident.len() == 0 {
        module
    } else {
        qualified_name(module, ident.drop_last()) + "::"@ + ident.last()
    }
}

/// The manifest record of an interface item. A value item carries the object
/// that the module binds its qualified name to.
pub open spec fn built_item(
    module: Seq<char>,
    output: Option<ModuleOutput>,
    item: ItemSummary,
) -> ItemView {
    let name = qualified_name(module, item.ident.content());
    ItemView {
        ident: item.ident.content(),
        kind: item.kind,
        hash: if item.kind.value() && output is Some && output->0.names@.contains_key(name) {
            Some(output->0.names@[name]@)
        } else {
            None
        },
        uuid: item.uuid@,
        span: item.span,
        summary: item.summary@,
    }
}

/// The migration records of a module, as `(cell, old, new)`.
pub open spec fn migration_triples(migrations: Seq<MigrationRecord>) -> Seq<
    (Seq<char>, Seq<char>, Seq<char>),
> {
    Seq::new(
        migrations.len(),
        |i: int| (migrations[i].cell@, migrations[i].old@, migrations[i].new@),
    )
}

/// A cache key of zeros.
pub open spec fn zero_key() -> Seq<u8> {
    Seq::new(32, |i: int| 0u8)
}

/// The manifest record of a module: what its interface says and, where it
/// produced an output, what that says.
pub open spec fn built_module(
    module: Seq<char>,
    summary: InterfaceSummary,
    output: Option<ModuleOutput>,
) -> ModuleView {
    let items = Seq::new(
        summary.items@.len(),
        |i: int| built_item(module, output, summary.items@[i]),
    );
    match output {
        Some(o) => ModuleView {
            module,
            resolved_ast_hash: summary.resolved_ast_hash@,
            interface_hash: summary.interface_hash@,
            deps: o.deps.content(),
            objects: contents(o.objects@),
            names: contents(o.names.seq()),
            signatures: contents(o.signatures.seq()),
            cache_key: o.cache_key@,
            consumed_links: contents(o.consumed_links.seq()),
            migrations: migration_triples(o.migrations@),
            lambda_parents: contents(o.lambda_parents.seq()),
            entry_point: o.entry_point.content(),
            source_path: summary.source_path@,
            items,
            prelink: o.prelink.content(),
        },
        None => ModuleView {
            module,
            resolved_ast_hash: summary.resolved_ast_hash@,
            interface_hash: summary.interface_hash@,
            deps: seq![],
            objects: seq![],
            names: seq![],
            signatures: seq![],
            cache_key: zero_key(),
            consumed_links: seq![],
            migrations: seq![],
            lambda_parents: seq![],
            entry_point: None,
            source_path: summary.source_path@,
            items,
            prelink: None,
        },
    }
}

/// Whether a list holds the bindings of a map, all of them and no others.
pub open spec fn lists<A, B>(s: Seq<(A, B)>, m: Map<A, B>) -> bool {
    forall|a: A, b: B| #[trigger] s.contains((a, b)) <==> m.contains_key(a) && m[a] == b
}

/// Whether a record lists what the output of its module binds: names under its
/// names, signatures under its signatures, links under its links, and lambdas under
/// its lambdas.
pub open spec fn lists_output(r: ModuleView, o: ModuleOutput) -> bool {
    &&& lists(r.names, name_map(o.names@))
    &&& lists(r.signatures, text_map(o.signatures@))
    &&& lists(r.consumed_links, name_map(o.consumed_links@))
    &&& lists(r.lambda_parents, parent_map(o.lambda_parents@))
}

proof fn lemma_lists_hashes(es: Seq<(String, Digest)>)
    requires
        keys_increase(es),
    ensures
        lists(contents(es), name_map(entries_map(es))),
{
    let m = name_map(entries_map(es));
    assert forall|a: Seq<char>, b: Seq<u8>| #[trigger] contents(es).contains((a, b)) <==> m.contains_key(
        a,
    ) && m[a] == b by {
        if contents(es).contains((a, b)) {
            let i = contents(es).index_of((a, b));
            assert(contents(es)[i] == (es[i].0@, es[i].1@));
            entry_found(es, i);
        }
        if m.contains_key(a) && m[a] == b {
            let i = key_position(es, a);
            assert(has_key(es, a));
            assert(contents(es)[i] == (a, b));
        }
    }
}

proof fn lemma_lists_texts(es: Seq<(String, String)>)
    requires
        keys_increase(es),
    ensures
        lists(contents(es), text_map(entries_map(es))),
{
    let m = text_map(entries_map(es));
    assert forall|a: Seq<char>, b: Seq<char>| #[trigger] contents(es).contains((a, b)) <==> m.contains_key(
        a,
    ) && m[a] == b by {
        if contents(es).contains((a, b)) {
            let i = contents(es).index_of((a, b));
            assert(contents(es)[i] == (es[i].0@, es[i].1@));
            entry_found(es, i);
        }
        if m.contains_key(a) && m[a] == b {
            let i = key_position(es, a);
            assert(has_key(es, a));
            assert(contents(es)[i] == (a, b));
        }
    }
}

proof fn lemma_lists_parents(es: Seq<(Digest, String)>)
    requires
        keys_increase(es),
    ensures
        lists(contents(es), parent_map(entries_map(es))),
{
    let m = parent_map(entries_map(es));
    assert forall|a: Seq<u8>, b: Seq<char>| #[trigger] contents(es).contains((a, b)) <==> m.contains_key(
        a,
    ) && m[a] == b by {
        if contents(es).contains((a, b)) {
            let i = contents(es).index_of((a, b));
            assert(contents(es)[i] == (es[i].0@, es[i].1@));
            entry_found(es, i);
        }
        if m.contains_key(a) && m[a] == b {
            let i = key_position(es, a);
            assert(has_key(es, a));
            assert(contents(es)[i] == (a, b));
        }
    }
}

/// Whether the tables of an output are in order, as every table is.
pub open spec fn output_in_order(o: ModuleOutput) -> bool {
    &&& keys_increase(o.names.seq())
    &&& keys_increase(o.signatures.seq())
    &&& keys_increase(o.consumed_links.seq())
    &&& keys_increase(o.lambda_parents.seq())
}

/// For every module with an output, a name is bound to a hash in the record of the
/// module exactly where the output binds it to that hash, and so are signatures,
/// links and lambdas. A record lists nothing of this where there is no output.
pub proof fn records_list_what_modules_bind(
    module: Seq<char>,
    summary: InterfaceSummary,
    output: Option<ModuleOutput>,
)
    requires
        output matches Some(o) ==> output_in_order(o),
    ensures
        match output {
            Some(o) => lists_output(built_module(module, summary, output), o),
            None => {
                let r = built_module(module, summary, output);
                &&& r.names.len() == 0
                &&& r.signatures.len() == 0
                &&& r.consumed_links.len() == 0
                &&& r.lambda_parents.len() == 0
                &&& r.objects.len() == 0
                &&& r.deps.len() == 0
                &&& r.migrations.len() == 0
                &&& r.entry_point is None
                &&& r.prelink is None
            },
        },
{
    if let Some(o) = output {
        o.names.entries_are_the_map();
        o.signatures.entries_are_the_map();
        o.consumed_links.entries_are_the_map();
        o.lambda_parents.entries_are_the_map();
        lemma_lists_hashes(o.names.seq());
        lemma_lists_texts(o.signatures.seq());
        lemma_lists_hashes(o.consumed_links.seq());
        lemma_lists_parents(o.lambda_parents.seq());
    }
}

/// What a record says of a module beside its bindings is what the build says: the
/// hashes and the source path of its interface, and the dependencies, objects,
/// migrations, key, entry point and pre-link form of its output, in their order.
pub proof fn records_keep_the_rest(
    module: Seq<char>,
    summary: InterfaceSummary,
    output: Option<ModuleOutput>,
)
    ensures
        ({
            let r = built_module(module, summary, output);
            &&& r.module == module
            &&& r.resolved_ast_hash == summary.resolved_ast_hash@
            &&& r.interface_hash == summary.interface_hash@
            &&& r.source_path == summary.source_path@
            &&& r.items.len() == summary.items@.len()
            &&& output matches Some(o) ==> {
                &&& r.deps.len() == o.deps@.len()
                &&& forall|i: int| 0 <= i < r.deps.len() ==> #[trigger] r.deps[i] == o.deps@[i]@
                &&& r.objects.len() == o.objects@.len()
                &&& forall|i: int|
                    0 <= i < r.objects.len() ==> #[trigger] r.objects[i] == o.objects@[i]@
                &&& r.migrations.len() == o.migrations@.len()
                &&& forall|i: int|
                    0 <= i < r.migrations.len() ==> {
                        let (cell, old_form, new_form) = #[trigger] r.migrations[i];
                        cell == o.migrations@[i].cell@ && old_form == o.migrations@[i].old@
                            && new_form == o.migrations@[i].new@
                    }
                &&& r.cache_key == o.cache_key@
                &&& (r.entry_point matches Some(h) ==> o.entry_point matches Some(d) && d@ == h)
                &&& r.entry_point is Some == o.entry_point is Some
                &&& (r.prelink matches Some(h) ==> o.prelink matches Some(d) && d@ == h)
                &&& r.prelink is Some == o.prelink is Some
            }
        }),
{
}

/// An item of a record carries the object that the record binds its full name to,
/// if it is a value; any other item carries none.
pub proof fn items_carry_what_their_names_bind(
    module: Seq<char>,
    summary: InterfaceSummary,
    o: ModuleOutput,
    i: int,
    h: Seq<u8>,
)
    requires
        output_in_order(o),
        0 <= i < summary.items@.len(),
    ensures
        ({
            let r = built_module(module, summary, Some(o));
            let item = r.items[i];
            &&& item.ident == summary.items@[i].ident.content()
            &&& item.kind == summary.items@[i].kind
            &&& item.hash == Some(h) <==> (item.kind is Function || item.kind is Const)
                && r.names.contains((qualified_name(module, item.ident), h))
        }),
{
    records_list_what_modules_bind(module, summary, Some(o));
    let r = built_module(module, summary, Some(o));
    let name = qualified_name(module, r.items[i].ident);
    assert(r.names.contains((name, h)) <==> name_map(o.names@).contains_key(name) && name_map(
        o.names@,
    )[name] == h);
}

/// Whether the tables of a build are in order, as every table is.
pub open spec fn build_in_order(build: BuildResult) -> bool {
    keys_increase(build.interfaces.seq()) && forall|m: Seq<char>|
        #[trigger] build.module_outputs@.contains_key(m) ==> output_in_order(
            build.module_outputs@[m],
        )
}

/// Whether a manifest binds a name of a module to a hash.
pub open spec fn manifest_binds(v: ManifestView, module: Seq<char>, n: Seq<char>, h: Seq<u8>) -> bool {
    exists|i: int|
        0 <= i < v.modules.len() && (#[trigger] v.modules[i]).module == module
            && v.modules[i].names.contains((n, h))
}

/// The manifest of a build binds a name of a module to a hash exactly where the
/// build does: the module has an interface, and its output binds the name to the
/// hash. So a name gives the hash that it was built with.
pub proof fn manifests_bind_what_was_built(
    build: BuildResult,
    module: Seq<char>,
    n: Seq<char>,
    h: Seq<u8>,
)
    requires
        build_in_order(build),
    ensures
        manifest_binds(built_manifest(build), module, n, h) <==> build.interfaces@.contains_key(
            module,
        ) && build.module_outputs@.contains_key(module)
            && build.module_outputs@[module].names@.contains_key(n)
            && build.module_outputs@[module].names@[n]@ == h,
{
    let v = built_manifest(build);
    let es = build.interfaces.seq();
    build.interfaces.entries_are_the_map();
    if manifest_binds(v, module, n, h) {
        let i = choose|i: int|
            0 <= i < v.modules.len() && (#[trigger] v.modules[i]).module == module
                && v.modules[i].names.contains((n, h));
        entry_found(es, i);
        records_list_what_modules_bind(module, es[i].1, output_of(build, module));
    }
    if build.interfaces@.contains_key(module) && build.module_outputs@.contains_key(module)
        && build.module_outputs@[module].names@.contains_key(n)
        && build.module_outputs@[module].names@[n]@ == h {
        let i = key_position(es, module);
        assert(has_key(es, module));
        records_list_what_modules_bind(module, es[i].1, output_of(build, module));
        assert(name_map(build.module_outputs@[module].names@)[n] == h);
        assert(v.modules[i].module == module);
        assert(v.modules[i].names.contains((n, h)));
    }
}

/// A manifest has one record for each module with an interface, and no others, in
/// increasing order of the module identities; and it names the package and the hashes
/// of the build.
pub proof fn manifests_record_every_module(build: BuildResult, module: Seq<char>)
    requires
        build_in_order(build),
    ensures
        ({
            let v = built_manifest(build);
            &&& v.version == MANIFEST_VERSION
            &&& v.package_name == build.package_name@
            &&& v.dispatch_surface_hash == build.dispatch_surface_hash@
            &&& v.natives_contract_hash == build.natives_contract_hash@
            &&& v.core_cache_key == build.core_cache_key@
            &&& build.interfaces@.contains_key(module) <==> exists|i: int|
                0 <= i < v.modules.len() && (#[trigger] v.modules[i]).module == module
            &&& forall|i: int, j: int|
                0 <= i < j < v.modules.len() ==> bytes_lt(
                    encode_utf8((#[trigger] v.modules[i]).module),
                    encode_utf8((#[trigger] v.modules[j]).module),
                )
        }),
{
    let v = built_manifest(build);
    let es = build.interfaces.seq();
    build.interfaces.entries_are_the_map();
    if build.interfaces@.contains_key(module) {
        let i = key_position(es, module);
        assert(has_key(es, module));
        assert(v.modules[i].module == module);
    }
    if exists|i: int| 0 <= i < v.modules.len() && (#[trigger] v.modules[i]).module == module {
        let i = choose|i: int|
            0 <= i < v.modules.len() && (#[trigger] v.modules[i]).module == module;
        entry_found(es, i);
    }
    assert forall|i: int, j: int| 0 <= i < j < v.modules.len() implies bytes_lt(
        encode_utf8((#[trigger] v.modules[i]).module),
        encode_utf8((#[trigger] v.modules[j]).module),
    ) by {
        assert(es[i].0.model() == v.modules[i].module && es[j].0.model() == v.modules[j].module);
    }
}

/// The output of a module, if it produced one.
pub open spec fn output_of(build: BuildResult, module: Seq<char>) -> Option<ModuleOutput> {
    if build.module_outputs@.contains_key(module) {
        Some(build.module_outputs@[module])
    } else {
        None
    }
}

/// The manifest of a build: one record for each module with an interface, in
/// the order of the module identities.
pub open spec fn built_manifest(build: BuildResult) -> ManifestView {
    let interfaces = build.interfaces.seq();
    ManifestView {
        version: MANIFEST_VERSION,
        package_name: build.package_name@,
        dispatch_surface_hash: build.dispatch_surface_hash@,
        natives_contract_hash: build.natives_contract_hash@,
        core_cache_key: build.core_cache_key@,
        modules: Seq::new(
            interfaces.len(),
            |i: int|
                built_module(
                    interfaces[i].0@,
                    interfaces[i].1,
                    output_of(build, interfaces[i].0@),
                ),
        ),
    }
}

/// The fully-qualified name of an item.
fn manifest_item_fqn(module: &str, ident: &Vec<String>) -> (r: String)
    ensures
        r@ == qualified_name(module@, ident.content()),
{
    let mut out = owned(module);
    let ghost path = ident.content();
    let mut i: usize = 0;
    assert(path.take(0) =~= seq![]);
    while i < ident.len()
        invariant
            i <= ident@.len(),
            path == ident.content(),
            out@ == qualified_name(module@, path.take(i as int)),
        decreases ident@.len() - i,
    {
        push_text(&mut out, "::");
        push_text(&mut out, ident[i].as_str());
        assert(path.take(i + 1).drop_last() =~= path.take(i as int));
        i = i + 1;
    }
    assert(path.take(path.len() as int) =~= path);
    out
}

/// The raw bytes of a list of hashes.
fn raw_hashes(hashes: &Vec<Digest>) -> (r: Vec<[u8; 32]>)
    ensures
        r.content() == contents(hashes@),
{
    let mut out: Vec<[u8; 32]> = Vec::new();
    let mut i: usize = 0;
    while i < hashes.len()
        invariant
            i <= hashes@.len(),
            out@.len() == i,
            forall|j: int| 0 <= j < i ==> (#[trigger] out@[j])@ == hashes@[j]@,
        decreases hashes@.len() - i,
    {
        out.push(hashes[i].bytes);
        i = i + 1;
    }
    assert(out.content() =~= contents(hashes@));
    out
}

/// The raw bytes of an optional hash.
fn raw_hash(hash: &Option<Digest>) -> (r: Option<[u8; 32]>)
    ensures
        r.content() == hash.content(),
{
    match hash {
        Some(h) => Some(h.bytes),
        None => None,
    }
}

/// Names with the raw bytes of their hashes.
fn raw_names(entries: &Vec<(String, Digest)>) -> (r: Vec<(String, [u8; 32])>)
    ensures
        r.content() == contents(entries@),
{
    let mut out: Vec<(String, [u8; 32])> = Vec::new();
    let mut i: usize = 0;
    while i < entries.len()
        invariant
            i <= entries@.len(),
            out@.len() == i,
            forall|j: int| 0 <= j < i ==> (#[trigger] out@[j]).content() == entries@[j].content(),
        decreases entries@.len() - i,
    {
        out.push((owned(entries[i].0.as_str()), entries[i].1.bytes));
        i = i + 1;
    }
    assert(out.content() =~= contents(entries@));
    out
}

/// Raw hashes with the text they are bound to.
fn raw_parents(entries: &Vec<(Digest, String)>) -> (r: Vec<([u8; 32], String)>)
    ensures
        r.content() == contents(entries@),
{
    let mut out: Vec<([u8; 32], String)> = Vec::new();
    let mut i: usize = 0;
    while i < entries.len()
        invariant
            i <= entries@.len(),
            out@.len() == i,
            forall|j: int| 0 <= j < i ==> (#[trigger] out@[j]).content() == entries@[j].content(),
        decreases entries@.len() - i,
    {
        out.push((entries[i].0.bytes, owned(entries[i].1.as_str())));
        i = i + 1;
    }
    assert(out.content() =~= contents(entries@));
    out
}

/// Migration records as triples.
fn raw_migrations(migrations: &Vec<MigrationRecord>) -> (r: Vec<(String, String, String)>)
    ensures
        r.content() == migration_triples(migrations@),
{
    let mut out: Vec<(String, String, String)> = Vec::new();
    let mut i: usize = 0;
    while i < migrations.len()
        invariant
            i <= migrations@.len(),
            out@.len() == i,
            forall|j: int|
                0 <= j < i ==> (#[trigger] out@[j]).content() == migration_triples(migrations@)[j],
        decreases migrations@.len() - i,
    {
        let m = &migrations[i];
        out.push((owned(m.cell.as_str()), owned(m.old.as_str()), owned(m.new.as_str())));
        i = i + 1;
    }
    assert(out.content() =~= migration_triples(migrations@));
    out
}

/// The manifest record of an interface item.
fn fold_item(module: &String, output: Option<&ModuleOutput>, item: &ItemSummary) -> (r: ManifestItem)
    ensures
        r.content() == built_item(
            module@,
            (match output {
                Some(o) => Some(*o),
                None => None,
            }),
            *item,
        ),
{
    let mut hash: Option<[u8; 32]> = None;
    if item.kind.is_value() {
        if let Some(o) = output {
            let fqn = manifest_item_fqn(module.as_str(), &item.ident);
            if let Some(h) = o.names.get(&fqn) {
                hash = Some(h.bytes);
            }
        }
    }
    let ident = copy_texts(&item.ident);
    assert(texts(ident@) =~= ident.content());
    assert(texts(item.ident@) =~= item.ident.content());
    ManifestItem {
        ident,
        kind: item.kind,
        hash,
        uuid: owned(item.uuid.as_str()),
        span: item.span,
        summary: owned(item.summary.as_str()),
    }
}

/// The manifest record of a module.
fn fold_module(
    module: &String,
    summary: &InterfaceSummary,
    output: Option<&ModuleOutput>,
) -> (r: ManifestModule)
    ensures
        r.content() == built_module(
            module@,
            *summary,
            (match output {
                Some(o) => Some(*o),
                None => None,
            }),
        ),
        output matches Some(o) ==> lists_output(r.content(), *o),
{
    let mut items: Vec<ManifestItem> = Vec::new();
    let mut i: usize = 0;
    let ghost out = match output {
        Some(o) => Some(*o),
        None => None,
    };
    while i < summary.items.len()
        invariant
            i <= summary.items@.len(),
            items@.len() == i,
            out == (match output {
                Some(o) => Some(*o),
                None => None,
            }),
            forall|j: int|
                0 <= j < i ==> (#[trigger] items@[j]).content() == built_item(
                    module@,
                    out,
                    summary.items@[j],
                ),
        decreases summary.items@.len() - i,
    {
        items.push(fold_item(module, output, &summary.items[i]));
        i = i + 1;
    }
    let ghost built = Seq::new(
        summary.items@.len(),
        |i: int| built_item(module@, out, summary.items@[i]),
    );
    assert(items.content() =~= built);
    let key = owned(module.as_str());
    let source_path = owned(summary.source_path.as_str());
    match output {
        Some(o) => {
            let deps = copy_texts(&o.deps);
            assert(texts(deps@) =~= deps.content());
            assert(texts(o.deps@) =~= o.deps.content());
            let signatures = copy_pairs(o.signatures.items());
            assert(contents(o.signatures.seq()) =~= signatures.content());
            let names = raw_names(o.names.items());
            let consumed_links = raw_names(o.consumed_links.items());
            let lambda_parents = raw_parents(o.lambda_parents.items());
            proof {
                records_list_what_modules_bind(module@, *summary, out);
            }
            ManifestModule {
                module: key,
                resolved_ast_hash: summary.resolved_ast_hash.bytes,
                interface_hash: summary.interface_hash.bytes,
                deps,
                objects: raw_hashes(&o.objects),
                names,
                signatures,
                cache_key: o.cache_key,
                consumed_links,
                migrations: raw_migrations(&o.migrations),
                lambda_parents,
                entry_point: raw_hash(&o.entry_point),
                source_path,
                items,
                prelink: raw_hash(&o.prelink),
            }
        },
        None => {
            let cache_key: [u8; 32] = [0u8; 32];
            assert(cache_key@ =~= zero_key());
            let r = ManifestModule {
                module: key,
                resolved_ast_hash: summary.resolved_ast_hash.bytes,
                interface_hash: summary.interface_hash.bytes,
                deps: Vec::new(),
                objects: Vec::new(),
                names: Vec::new(),
                signatures: Vec::new(),
                cache_key,
                consumed_links: Vec::new(),
                migrations: Vec::new(),
                lambda_parents: Vec::new(),
                entry_point: None,
                source_path,
                items,
                prelink: None,
            };
            proof {
                let c = r.content();
                assert(c.deps =~= seq![]);
                assert(c.objects =~= seq![]);
                assert(c.names =~= seq![]);
                assert(c.signatures =~= seq![]);
                assert(c.consumed_links =~= seq![]);
                assert(c.migrations =~= seq![]);
                assert(c.lambda_parents =~= seq![]);
            }
            r
        },
    }
}

impl ManifestItem {
    /// The item's own name: the last segment of its ident path, or nothing for
    /// an empty path.
    pub fn name(&self) -> (r: &str)
        ensures
            r@ == (if self.ident@.len() == 0 {
                ""@
            } else {
                self.ident@.last()@
            }),
    {
        if self.ident.len() == 0 {
            ""
        } else {
            self.ident[self.ident.len() - 1].as_str()
        }
    }
}

/// The objects that one module's record refers to: what it produced, then what
/// its names are bound to.
pub open spec fn module_objects(m: ModuleView) -> Seq<Seq<u8>> {
    m.objects + Seq::new(m.names.len(), |i: int| m.names[i].1)
}

/// The objects that some modules' records refer to.
pub open spec fn modules_objects(ms: Seq<ModuleView>) -> Seq<Seq<u8>>
    decreases ms.len(),
{
    if ms.len() == 0 {
        seq![]
    } else {
        modules_objects(ms.drop_last()) + module_objects(ms.last())
    }
}

/// The pre-link forms that some modules' records refer to.
pub open spec fn modules_prelink(ms: Seq<ModuleView>) -> Seq<Seq<u8>>
    decreases ms.len(),
{
    if ms.len() == 0 {
        seq![]
    } else {
        match ms.last().prelink {
            Some(h) => modules_prelink(ms.drop_last()).push(h),
            None => modules_prelink(ms.drop_last()),
        }
    }
}

impl BuildManifest {
    /// Fold a completed build into a manifest.
    pub fn from_build(build: &BuildResult) -> (r: BuildManifest)
        ensures
            r@ == built_manifest(*build),
            forall|i: int|
                #![trigger r@.modules[i]]
                0 <= i < r@.modules.len() ==> match output_of(*build, r@.modules[i].module) {
                    Some(o) => lists_output(r@.modules[i], o),
                    None => r@.modules[i].names.len() == 0,
                },
    {
        let interfaces = build.interfaces.items();
        let mut modules: Vec<ManifestModule> = Vec::new();
        let mut i: usize = 0;
        while i < interfaces.len()
            invariant
                i <= interfaces@.len(),
                interfaces@ == build.interfaces.seq(),
                modules@.len() == i,
                forall|j: int|
                    0 <= j < i ==> (#[trigger] modules@[j]).content() == built_manifest(
                        *build,
                    ).modules[j],
                forall|j: int|
                    0 <= j < i ==> match output_of(*build, (#[trigger] modules@[j]).module@) {
                        Some(o) => lists_output(modules@[j].content(), o),
                        None => modules@[j].content().names.len() == 0,
                    },
            decreases interfaces@.len() - i,
        {
            let key = &interfaces[i].0;
            let output = build.module_outputs.get(key);
            modules.push(fold_module(key, &interfaces[i].1, output));
            i = i + 1;
        }
        assert(modules.content() =~= built_manifest(*build).modules);
        BuildManifest {
            version: MANIFEST_VERSION,
            package_name: owned(build.package_name.as_str()),
            dispatch_surface_hash: build.dispatch_surface_hash.bytes,
            natives_contract_hash: build.natives_contract_hash.bytes,
            core_cache_key: build.core_cache_key,
            modules,
        }
    }

    /// Every object hash that the manifest refers to.
    pub fn referenced_objects(&self) -> (r: Vec<Digest>)
        ensures
            contents(r@) == modules_objects(self@.modules),
    {
        let mut out: Vec<Digest> = Vec::new();
        let ghost ms = self.modules.content();
        let mut i: usize = 0;
        assert(ms.take(0) =~= seq![]);
        assert(contents(out@) =~= seq![]);
        while i < self.modules.len()
            invariant
                i <= self.modules@.len(),
                ms == self.modules.content(),
                contents(out@) == modules_objects(ms.take(i as int)),
            decreases self.modules@.len() - i,
        {
            let module = &self.modules[i];
            let ghost start = contents(out@);
            let ghost w = module.content();
            let mut j: usize = 0;
            assert(start + w.objects.take(0) =~= start);
            while j < module.objects.len()
                invariant
                    j <= module.objects@.len(),
                    w == module.content(),
                    contents(out@) == start + w.objects.take(j as int),
                decreases module.objects@.len() - j,
            {
                let ghost before = contents(out@);
                out.push(Digest::from_bytes(module.objects[j]));
                assert(contents(out@) =~= before.push(w.objects[j as int]));
                assert(contents(out@) =~= start + w.objects.take(j + 1));
                j = j + 1;
            }
            assert(w.objects.take(j as int) =~= w.objects);
            let ghost bound = Seq::new(w.names.len(), |i: int| w.names[i].1);
            let ghost middle = contents(out@);
            let mut k: usize = 0;
            assert(middle + bound.take(0) =~= middle);
            while k < module.names.len()
                invariant
                    k <= module.names@.len(),
                    w == module.content(),
                    bound == Seq::new(w.names.len(), |i: int| w.names[i].1),
                    contents(out@) == middle + bound.take(k as int),
                decreases module.names@.len() - k,
            {
                let ghost before = contents(out@);
                out.push(Digest::from_bytes(module.names[k].1));
                assert(contents(out@) =~= before.push(bound[k as int]));
                assert(contents(out@) =~= middle + bound.take(k + 1));
                k = k + 1;
            }
            proof {
                assert(bound.take(k as int) =~= bound);
                assert(ms.take(i + 1).drop_last() =~= ms.take(i as int));
                assert(contents(out@) =~= start + module_objects(w));
            }
            i = i + 1;
        }
        assert(ms.take(ms.len() as int) =~= ms);
        out
    }

    /// Every pre-link form that the manifest refers to.
    pub fn referenced_prelink(&self) -> (r: Vec<Digest>)
        ensures
            contents(r@) == modules_prelink(self@.modules),
    {
        let mut out: Vec<Digest> = Vec::new();
        let ghost ms = self.modules.content();
        let mut i: usize = 0;
        assert(ms.take(0) =~= seq![]);
        assert(contents(out@) =~= seq![]);
        while i < self.modules.len()
            invariant
                i <= self.modules@.len(),
                ms == self.modules.content(),
                contents(out@) == modules_prelink(ms.take(i as int)),
            decreases self.modules@.len() - i,
        {
            let ghost before = contents(out@);
            if let Some(h) = self.modules[i].prelink {
                out.push(Digest::from_bytes(h));
                assert(contents(out@) =~= before.push(h@));
            }
            assert(ms.take(i + 1).drop_last() =~= ms.take(i as int));
            assert(ms.take(i + 1).last() == self.modules@[i as int].content());
            i = i + 1;
        }
        assert(ms.take(ms.len() as int) =~= ms);
        out
    }
}

impl ManifestError {
    /// The text of the error.
    pub open spec fn text(self) -> Seq<char> {
        match self {
            ManifestError::Truncated => "build manifest is truncated"@,
            ManifestError::BadMagic => "not a build manifest (bad magic)"@,
            ManifestError::BadVersion(v) => "unsupported build-manifest version "@
                + crate::text::decimal_text(v as nat),
            ManifestError::InvalidUtf8 => "invalid UTF-8 in build manifest"@,
            ManifestError::BadTag(t) => "unexpected tag "@ + crate::text::decimal_text(t as nat)
                + " in build manifest"@,
            ManifestError::TrailingBytes => "trailing bytes after build manifest"@,
        }
    }

    /// The text of the error.
    pub fn message(&self) -> (r: String)
        ensures
            r@ == self.text(),
    {
        match self {
            ManifestError::Truncated => owned("build manifest is truncated"),
            ManifestError::BadMagic => owned("not a build manifest (bad magic)"),
            ManifestError::BadVersion(v) => {
                let mut out = owned("unsupported build-manifest version ");
                push_decimal(&mut out, *v as u64);
                out
            },
            ManifestError::InvalidUtf8 => owned("invalid UTF-8 in build manifest"),
            ManifestError::BadTag(t) => {
                let mut out = owned("unexpected tag ");
                push_decimal(&mut out, *t as u64);
                push_text(&mut out, " in build manifest");
                out
            },
            ManifestError::TrailingBytes => owned("trailing bytes after build manifest"),
        }
    }
}

} // verus!
