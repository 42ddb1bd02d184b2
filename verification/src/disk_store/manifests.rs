//! The build manifests of a store, and the pointers that name the current one of
//! each package.

use vstd::prelude::*;
use vstd::utf8::encode_utf8;

use crate::digest::{blake3_hash, hash_hex_bytes, hex_roundtrip, hex_text, is_hash_hex, Digest};
use crate::disk_store::error::{fault_text, DiskStoreError, StoreFault};
use crate::disk_store::files::{
    file_map, hash_path, join_hash_path, join_path, path_join, ChangeView, FileChange,
};
use crate::disk_store::objects::{text_bytes, DiskStore, StoreView};
use crate::disk_store::snapshot::{
    manifest_bytes, manifest_fits, manifest_parse, manifest_reads_back, BuildManifest,
    ManifestView, MANIFEST_VERSION, SNAPSHOT_POINTER,
};
use crate::order::{enumerates, text_lt};
use crate::ordmap::{
    entries_map, entry_found, has_key, key_position, keys_increase, picked, picked_enumerates, Key,
    OrdMap,
};
use crate::text::{
    first_line, lines_of, owned, push_text, strip_prefix, stripped_prefix, text_lines,
    text_lines_cons, trim, trimmed,
};
use crate::wire::{contents, copy_bytes};

verus! {

broadcast use {vstd::string::group_string_axioms, vstd::array::group_array_axioms};

/// What a pointer begins with.
pub const POINTER_PREFIX: &'static str = "ambient-snapshot-v1 ";

// ── pointers ────────────────────────────────────────────────────────────────

/// The hash that a pointer names: on its first line, behind a marker. `None`
/// where there is none.
pub open spec fn pointed(prefix: Seq<char>, content: Seq<char>) -> Option<Seq<u8>> {
    match first_line(content) {
        None => None,
        Some(line) => match strip_prefix(line, prefix) {
            None => None,
            Some(rest) => if is_hash_hex(trim(rest)) {
                Some(hash_hex_bytes(trim(rest)))
            } else {
                None
            },
        },
    }
}

/// What a pointer holds.
pub open spec fn pointer_text(prefix: Seq<char>, hash: Seq<u8>) -> Seq<char> {
    prefix + hex_text(hash) + "\n"@
}

/// The hash that a pointer names.
pub fn parse_pointed(prefix: &str, content: &str) -> (r: Option<Digest>)
    ensures
        match pointed(prefix@, content@) {
            Some(h) => r matches Some(d) && d@ == h,
            None => r is None,
        },
{
    let lines = lines_of(content);
    let ghost all = contents(lines@);
    if lines.len() == 0 {
        assert(text_lines(content@).len() == 0);
        assert(content@.len() == 0);
        return None;
    }
    assert(all.len() > 0);
    assert(content@.len() > 0) by {
        if content@.len() == 0 {
            assert(text_lines(content@) =~= seq![]);
        }
    }
    assert(lines@[0]@ == text_lines(content@)[0]) by {
        assert(all[0] == lines@[0]@);
    }
    match stripped_prefix(lines[0].as_str(), prefix) {
        None => None,
        Some(rest) => {
            let hex = trimmed(rest.as_str());
            Digest::from_hex(hex.as_str())
        },
    }
}

/// What a pointer holds.
pub fn render_pointer(prefix: &str, hash: &Digest) -> (r: String)
    ensures
        r@ == pointer_text(prefix@, hash@),
{
    let mut out = owned(prefix);
    push_text(&mut out, hash.to_hex().as_str());
    push_text(&mut out, "\n");
    out
}

/// A pointer names the hash that it was written for.
pub proof fn pointer_reads_back(prefix: Seq<char>, hash: Seq<u8>)
    requires
        hash.len() == 32,
        forall|i: int| 0 <= i < prefix.len() ==> prefix[i] != '\n',
    ensures
        pointed(prefix, pointer_text(prefix, hash)) == Some(hash),
{
    let hex = hex_text(hash);
    let line = prefix + hex;
    hex_roundtrip(hash);
    assert forall|i: int| 0 <= i < hex.len() implies hex[i] != '\n' && hex[i] != '\r'
        && !crate::text::white_space(#[trigger] hex[i]) by {
        assert(crate::digest::hex_value(hex[i]) is Some);
    }
    assert forall|i: int| 0 <= i < line.len() implies line[i] != '\n' by {
        if i >= prefix.len() {
            assert(line[i] == hex[i - prefix.len()]);
        }
    }
    assert(line.last() == hex[63]);
    reveal_strlit("\n");
    let text = pointer_text(prefix, hash);
    assert(text =~= line.push('\n') + Seq::<char>::empty());
    text_lines_cons(line, Seq::<char>::empty());
    assert(text_lines(text)[0] == line);
    assert(line.skip(prefix.len() as int) =~= hex);
    assert(prefix.is_prefix_of(line));
    assert(trim(hex) == hex) by {
        assert(crate::text::trim_start(hex) == hex) by {
            assert(!crate::text::white_space(hex[0]));
        }
        assert(crate::text::trim_end(hex) == hex) by {
            assert(!crate::text::white_space(hex[63]));
        }
    }
}

// ── manifests ───────────────────────────────────────────────────────────────

/// The manifest under a hash; it must be intact.
pub open spec fn manifest_at(manifests: Map<Seq<u8>, Seq<u8>>, h: Seq<u8>) -> Result<
    Option<ManifestView>,
    StoreFault,
> {
    if !manifests.contains_key(h) {
        Ok(None)
    } else if blake3_hash(manifests[h]) != h {
        Err(StoreFault::Corrupt { expected: h, actual: blake3_hash(manifests[h]) })
    } else {
        match manifest_parse(manifests[h]) {
            Err(e) => Err(StoreFault::MalformedManifest(e.text())),
            Ok(m) => Ok(Some(m)),
        }
    }
}

/// The manifest under a hash; one that is not intact counts as none.
pub open spec fn sound_manifest(manifests: Map<Seq<u8>, Seq<u8>>, h: Seq<u8>) -> Option<
    ManifestView,
> {
    match manifest_at(manifests, h) {
        Ok(m) => m,
        Err(_) => None,
    }
}

/// With a manifest, and the pointer of its package at it. The manifest comes
/// first, so that the pointer never names one that is not there.
pub open spec fn with_snapshot(v: StoreView, m: ManifestView) -> StoreView {
    let bytes = manifest_bytes(m);
    let h = blake3_hash(bytes);
    let content = pointer_text(POINTER_PREFIX@, h);
    let stored = if v.manifests.contains_key(h) {
        v
    } else {
        StoreView {
            manifests: v.manifests.insert(h, bytes),
            journal: v.journal.push(ChangeView::Write(hash_path(v.root, "meta"@, h), bytes)),
            ..v
        }
    };
    StoreView {
        pointers: stored.pointers.insert(m.package_name, content),
        journal: stored.journal.push(
            ChangeView::Write(
                path_join(path_join(v.root, SNAPSHOT_POINTER@), m.package_name),
                encode_utf8(content),
            ),
        ),
        ..stored
    }
}

/// The packages whose pointer names a hash.
pub open spec fn pointing(pointers: Map<Seq<char>, Seq<char>>) -> Set<Seq<char>> {
    Set::new(
        |p: Seq<char>|
            pointers.contains_key(p) && pointed(POINTER_PREFIX@, pointers[p]) is Some,
    )
}

/// The names of pairs.
pub open spec fn pair_names(s: Seq<(String, Digest)>) -> Seq<Seq<char>> {
    Seq::new(s.len(), |i: int| s[i].0@)
}

/// The hashes of pairs.
pub open spec fn pair_hashes(s: Seq<(String, Digest)>) -> Seq<Seq<u8>> {
    Seq::new(s.len(), |i: int| s[i].1@)
}

/// Whether pairs are the packages with the hashes that their pointers name, in
/// order of packages.
pub open spec fn lists_pointers(
    pointers: Map<Seq<char>, Seq<char>>,
    s: Seq<(String, Digest)>,
) -> bool {
    &&& enumerates(pair_names(s), pointing(pointers))
    &&& forall|i: int|
        0 <= i < s.len() ==> pointed(POINTER_PREFIX@, pointers[(#[trigger] s[i]).0@]) == Some(s[i].1@)
}

/// The sound manifests under hashes, those under the same hash once.
pub open spec fn sound_manifests(
    manifests: Map<Seq<u8>, Seq<u8>>,
    hashes: Seq<Seq<u8>>,
) -> Seq<ManifestView>
    decreases hashes.len(),
{
    if hashes.len() == 0 {
        seq![]
    } else {
        let rest = hashes.drop_last();
        let before = sound_manifests(manifests, rest);
        match sound_manifest(manifests, hashes.last()) {
            Some(m) => if rest.contains(hashes.last()) {
                before
            } else {
                before.push(m)
            },
            None => before,
        }
    }
}

/// What manifests say.
pub open spec fn manifest_views(s: Seq<BuildManifest>) -> Seq<ManifestView> {
    Seq::new(s.len(), |i: int| s[i]@)
}

/// What is wrong with the pointer of a package, if something is.
pub open spec fn pointer_fault(
    manifests: Map<Seq<u8>, Seq<u8>>,
    package: Seq<char>,
    content: Seq<char>,
) -> Option<Seq<char>> {
    match pointed(POINTER_PREFIX@, content) {
        None => Some("root pointer for `"@ + package + "` is present but malformed"@),
        Some(h) => match manifest_at(manifests, h) {
            Ok(Some(_)) => None,
            Ok(None) => Some(
                "root pointer for `"@ + package + "` names missing manifest "@ + hex_text(h),
            ),
            Err(e) => Some(
                "root pointer for `"@ + package + "` names bad manifest "@ + hex_text(h) + ": "@
                    + fault_text(e),
            ),
        },
    }
}

impl DiskStore {
    /// The path of the file of a manifest.
    pub fn meta_path(&self, hash: &Digest) -> (r: String)
        ensures
            r@ == hash_path(self@.root, "meta"@, hash@),
    {
        join_hash_path(self.root.as_str(), "meta", hash)
    }

    /// The path of the pointer of a package.
    fn pointer_path(&self, package: &str) -> (r: String)
        ensures
            r@ == path_join(path_join(self@.root, SNAPSHOT_POINTER@), package@),
    {
        let dir = join_path(self.root.as_str(), SNAPSHOT_POINTER);
        join_path(dir.as_str(), package)
    }

    /// Write a manifest, then point its package at it. The result is the hash of
    /// the manifest.
    pub fn write_snapshot(&mut self, manifest: &BuildManifest) -> (r: Digest)
        ensures
            r@ == blake3_hash(manifest_bytes(manifest@)),
            final(self)@ == with_snapshot(old(self)@, manifest@),
    {
        let ghost was = self@;
        let bytes = manifest.encode();
        let hash = Digest::of(bytes.as_slice());
        if !self.manifests.contains_key(&hash) {
            let path = self.meta_path(&hash);
            self.journal.push(FileChange::Write(path, copy_bytes(&bytes)));
            self.manifests.insert(hash, bytes);
        }
        let ghost stored = self@;
        proof {
            let b = manifest_bytes(manifest@);
            if !was.manifests.contains_key(hash@) {
                assert(stored =~= (StoreView {
                    manifests: was.manifests.insert(hash@, b),
                    journal: was.journal.push(
                        ChangeView::Write(hash_path(was.root, "meta"@, hash@), b),
                    ),
                    ..was
                }));
            }
        }
        let content = render_pointer(POINTER_PREFIX, &hash);
        let path = self.pointer_path(manifest.package_name.as_str());
        self.journal.push(FileChange::Write(path, text_bytes(content.as_str())));
        self.pointers.insert(owned(manifest.package_name.as_str()), content);
        assert(self@ =~= with_snapshot(was, manifest@));
        hash
    }

    /// The packages whose pointer names a hash, with the hash, in order of
    /// packages. Malformed pointers are passed over.
    pub fn snapshot_pointers(&self) -> (r: Vec<(String, Digest)>)
        ensures
            lists_pointers(self@.pointers, r@),
    {
        let items = self.pointers.items();
        let ghost entries = items@;
        let ghost pointers = self@.pointers;
        let ghost keep = |p: Seq<char>| pointed(POINTER_PREFIX@, pointers[p]) is Some;
        let mut out: Vec<(String, Digest)> = Vec::new();
        let mut i: usize = 0;
        assert(pair_names(out@) =~= seq![]);
        while i < items.len()
            invariant
                i <= items@.len(),
                entries == items@,
                keys_increase(entries),
                self.pointers@ == entries_map(entries),
                pointers == file_map(self.pointers@),
                keep == (|p: Seq<char>| pointed(POINTER_PREFIX@, pointers[p]) is Some),
                pair_names(out@) == picked(entries, i as int, keep),
                forall|k: int|
                    0 <= k < out@.len() ==> pointed(
                        POINTER_PREFIX@,
                        pointers[(#[trigger] out@[k]).0@],
                    ) == Some(out@[k].1@),
            decreases items@.len() - i,
        {
            let ghost was = pair_names(out@);
            let ghost key = entries[i as int].0@;
            proof {
                entry_found(entries, i as int);
                assert(pointers[key] == entries[i as int].1@);
            }
            if let Some(hash) = parse_pointed(POINTER_PREFIX, items[i].1.as_str()) {
                out.push((owned(items[i].0.as_str()), hash));
                assert(pair_names(out@) =~= was.push(key));
            }
            i = i + 1;
        }
        proof {
            picked_enumerates(entries, keep);
            let have = Set::new(|n: Seq<char>| entries_map(entries).contains_key(n) && keep(n));
            assert forall|n: Seq<char>| have.contains(n) == pointing(pointers).contains(n) by {}
            assert(have =~= pointing(pointers));
        }
        out
    }

    /// The hash that the pointer of a package names, if there is one.
    pub fn snapshot_pointer_for(&self, package: &str) -> (r: Option<Digest>)
        ensures
            match r {
                Some(d) => self@.pointers.contains_key(package@) && pointed(
                    POINTER_PREFIX@,
                    self@.pointers[package@],
                ) == Some(d@),
                None => !pointing(self@.pointers).contains(package@),
            },
    {
        match self.pointers.get_text(package) {
            None => None,
            Some(content) => {
                assert(self@.pointers[package@] == content@);
                parse_pointed(POINTER_PREFIX, content.as_str())
            },
        }
    }

    /// The hash that the first pointer names, by package, if there is one.
    pub fn snapshot_pointer(&self) -> (r: Option<Digest>)
        ensures
            exists|s: Seq<(String, Digest)>| #[trigger]
                lists_pointers(self@.pointers, s) && (if s.len() == 0 {
                    r is None
                } else {
                    r matches Some(d) && d@ == s[0].1@
                }),
    {
        let all = self.snapshot_pointers();
        assert(lists_pointers(self@.pointers, all@));
        if all.len() == 0 {
            None
        } else {
            Some(all[0].1)
        }
    }

    /// The manifest under a hash, if there is one, checked.
    pub fn load_manifest(&self, hash: &Digest) -> (r: Result<
        Option<BuildManifest>,
        DiskStoreError,
    >)
        ensures
            match manifest_at(self@.manifests, hash@) {
                Ok(Some(m)) => r matches Ok(Some(x)) && x@ == m,
                Ok(None) => r matches Ok(None),
                Err(e) => r matches Err(x) && x@ == e,
            },
    {
        let bytes = match self.manifests.get(hash) {
            None => {
                return Ok(None);
            },
            Some(b) => b,
        };
        assert(self@.manifests[hash@] == bytes@);
        let actual = Digest::of(bytes.as_slice());
        if !actual.same(hash) {
            return Err(DiskStoreError::Corrupt { expected: *hash, actual });
        }
        match BuildManifest::decode(bytes.as_slice()) {
            Err(e) => Err(DiskStoreError::MalformedManifest(e.message())),
            Ok(m) => Ok(Some(m)),
        }
    }

    /// The manifest under a hash; one that is not intact counts as none.
    pub(crate) fn manifest_or_miss(&self, hash: &Digest) -> (r: Option<BuildManifest>)
        ensures
            match sound_manifest(self@.manifests, hash@) {
                Some(m) => r matches Some(x) && x@ == m,
                None => r is None,
            },
    {
        match self.load_manifest(hash) {
            Ok(m) => m,
            Err(_) => None,
        }
    }

    /// The manifest that the first pointer names, by package. Whatever is broken
    /// counts as none.
    pub fn current_snapshot(&self) -> (r: Option<BuildManifest>)
        ensures
            exists|s: Seq<(String, Digest)>| #[trigger]
                lists_pointers(self@.pointers, s) && match (if s.len() == 0 {
                    None
                } else {
                    sound_manifest(self@.manifests, s[0].1@)
                }) {
                    Some(m) => r matches Some(x) && x@ == m,
                    None => r is None,
                },
    {
        match self.snapshot_pointer() {
            None => None,
            Some(hash) => self.manifest_or_miss(&hash),
        }
    }

    /// The manifest that the pointer of a package names. Whatever is broken
    /// counts as none.
    pub fn current_snapshot_for(&self, package: &str) -> (r: Option<BuildManifest>)
        ensures
            match (if pointing(self@.pointers).contains(package@) {
                sound_manifest(
                    self@.manifests,
                    pointed(POINTER_PREFIX@, self@.pointers[package@])->0,
                )
            } else {
                None
            }) {
                Some(m) => r matches Some(x) && x@ == m,
                None => r is None,
            },
    {
        match self.snapshot_pointer_for(package) {
            None => None,
            Some(hash) => self.manifest_or_miss(&hash),
        }
    }

    /// The manifests that the pointers of the packages name, each once, in order
    /// of packages. Whatever is broken is passed over.
    pub fn current_snapshots(&self) -> (r: Vec<BuildManifest>)
        ensures
            exists|s: Seq<(String, Digest)>| #[trigger]
                lists_pointers(self@.pointers, s) && manifest_views(r@) == sound_manifests(
                    self@.manifests,
                    pair_hashes(s),
                ),
    {
        let all = self.snapshot_pointers();
        let ghost hashes = pair_hashes(all@);
        let mut seen: OrdMap<Digest, ()> = OrdMap::new();
        let mut out: Vec<BuildManifest> = Vec::new();
        let mut i: usize = 0;
        assert(hashes.take(0) =~= seq![]);
        assert(manifest_views(out@) =~= seq![]);
        while i < all.len()
            invariant
                i <= all@.len(),
                hashes == pair_hashes(all@),
                forall|h: Seq<u8>| #[trigger]
                    seen@.contains_key(h) <==> hashes.take(i as int).contains(h),
                manifest_views(out@) == sound_manifests(self@.manifests, hashes.take(i as int)),
            decreases all@.len() - i,
        {
            let ghost was = manifest_views(out@);
            let ghost before = hashes.take(i as int);
            let hash = all[i].1;
            assert(hashes.take(i + 1).drop_last() =~= before);
            assert(hashes.take(i + 1).last() == hash@);
            let known = seen.contains_key(&hash);
            if !known {
                seen.insert(hash, ());
                if let Some(m) = self.manifest_or_miss(&hash) {
                    let ghost view = m@;
                    out.push(m);
                    assert(manifest_views(out@) =~= was.push(view));
                }
            }
            assert forall|h: Seq<u8>| #[trigger]
                seen@.contains_key(h) <==> hashes.take(i + 1).contains(h) by {
                let after = hashes.take(i + 1);
                assert(after[i as int] == hash@);
                if after.contains(h) {
                    let j = after.index_of(h);
                    if j < i {
                        assert(before[j] == h);
                    }
                }
                if before.contains(h) {
                    let j = before.index_of(h);
                    assert(after[j] == h);
                }
            }
            i = i + 1;
        }
        assert(hashes.take(hashes.len() as int) =~= hashes);
        assert(lists_pointers(self@.pointers, all@));
        out
    }

    /// What is wrong with a pointer, if something is.
    fn pointer_problem(&self, package: &str, content: &str) -> (r: Option<String>)
        ensures
            match pointer_fault(self@.manifests, package@, content@) {
                Some(t) => r matches Some(x) && x@ == t,
                None => r is None,
            },
    {
        let mut text = owned("root pointer for `");
        push_text(&mut text, package);
        match parse_pointed(POINTER_PREFIX, content) {
            None => {
                push_text(&mut text, "` is present but malformed");
                Some(text)
            },
            Some(hash) => match self.load_manifest(&hash) {
                Ok(Some(_)) => None,
                Ok(None) => {
                    push_text(&mut text, "` names missing manifest ");
                    push_text(&mut text, hash.to_hex().as_str());
                    Some(text)
                },
                Err(e) => {
                    push_text(&mut text, "` names bad manifest ");
                    push_text(&mut text, hash.to_hex().as_str());
                    push_text(&mut text, ": ");
                    push_text(&mut text, e.message().as_str());
                    Some(text)
                },
            },
        }
    }

    /// What is wrong with the pointers: with the first one, by package, with
    /// which something is.
    pub fn snapshot_health(&self) -> (r: Option<String>)
        ensures
            health_of(self@.manifests, self@.pointers, r),
    {
        let items = self.pointers.items();
        let ghost entries = items@;
        let mut i: usize = 0;
        while i < items.len()
            invariant
                i <= items@.len(),
                entries == items@,
                keys_increase(entries),
                self.pointers@ == entries_map(entries),
                forall|k: int|
                    0 <= k < i ==> pointer_fault(
                        self@.manifests,
                        (#[trigger] entries[k]).0@,
                        entries[k].1@,
                    ) is None,
            decreases items@.len() - i,
        {
            if let Some(text) = self.pointer_problem(items[i].0.as_str(), items[i].1.as_str()) {
                proof {
                    entry_found(entries, i as int);
                    let p = entries[i as int].0@;
                    assert(self@.pointers.contains_key(p));
                    assert(self@.pointers[p] == entries[i as int].1@);
                    assert(pointer_fault(self@.manifests, p, self@.pointers[p]) == Some(text@));
                    assert forall|q: Seq<char>| #[trigger]
                        self@.pointers.contains_key(q) && text_lt(q, p) implies pointer_fault(
                        self@.manifests,
                        q,
                        self@.pointers[q],
                    ) is None by {
                        let j = key_position(entries, q);
                        assert(has_key(entries, q));
                        entry_found(entries, j);
                        assert(entries[j].0.model() == q);
                        assert(entries[i as int].0.model() == p);
                        if j >= i {
                            if j == i {
                                crate::order::bytes_lt_irreflexive(encode_utf8(p));
                            } else {
                                crate::order::bytes_lt_transitive(
                                    encode_utf8(p),
                                    encode_utf8(q),
                                    encode_utf8(p),
                                );
                                crate::order::bytes_lt_irreflexive(encode_utf8(p));
                            }
                        }
                    }
                }
                return Some(text);
            }
            i = i + 1;
        }
        proof {
            assert forall|p: Seq<char>| #[trigger] self@.pointers.contains_key(p) implies pointer_fault(
                self@.manifests,
                p,
                self@.pointers[p],
            ) is None by {
                let j = key_position(entries, p);
                assert(has_key(entries, p));
                entry_found(entries, j);
                assert(entries[j].0.model() == p);
            }
        }
        None
    }

    /// The hashes of the manifests, in order.
    pub fn all_manifest_hashes(&self) -> (r: Vec<Digest>)
        ensures
            lists_keys(r@, self@.manifests.dom()),
    {
        keys_of(&self.manifests)
    }
}

/// Whether text says what is wrong with the first pointer, by package, with
/// which something is.
pub open spec fn health_of(
    manifests: Map<Seq<u8>, Seq<u8>>,
    pointers: Map<Seq<char>, Seq<char>>,
    r: Option<String>,
) -> bool {
    match r {
        None => forall|p: Seq<char>| #[trigger]
            pointers.contains_key(p) ==> pointer_fault(manifests, p, pointers[p]) is None,
        Some(t) => exists|p: Seq<char>| #[trigger]
            pointers.contains_key(p) && pointer_fault(manifests, p, pointers[p]) == Some(t@) && forall|
                q: Seq<char>,
            | #[trigger]
                pointers.contains_key(q) && text_lt(q, p) ==> pointer_fault(
                    manifests,
                    q,
                    pointers[q],
                ) is None,
    }
}

/// Whether hashes are the members of a set, each once, in increasing order.
pub open spec fn lists_keys(s: Seq<Digest>, set: Set<Seq<u8>>) -> bool {
    &&& forall|i: int, j: int|
        0 <= i < j < s.len() ==> crate::order::bytes_lt((#[trigger] s[i])@, (#[trigger] s[j])@)
    &&& forall|h: Seq<u8>| #[trigger]
        set.contains(h) <==> exists|i: int| 0 <= i < s.len() && (#[trigger] s[i])@ == h
}

/// The keys of a map, in order.
pub fn keys_of<V>(files: &OrdMap<Digest, V>) -> (r: Vec<Digest>)
    ensures
        lists_keys(r@, files@.dom()),
{
    let items = files.items();
    let ghost entries = items@;
    let mut out: Vec<Digest> = Vec::new();
    let mut i: usize = 0;
    while i < items.len()
        invariant
            i <= items@.len(),
            entries == items@,
            out@.len() == i,
            forall|k: int| 0 <= k < i ==> #[trigger] out@[k] == entries[k].0,
        decreases items@.len() - i,
    {
        out.push(items[i].0);
        i = i + 1;
    }
    proof {
        assert forall|a: int, b: int| 0 <= a < b < out@.len() implies crate::order::bytes_lt(
            (#[trigger] out@[a])@,
            (#[trigger] out@[b])@,
        ) by {
            assert(entries[a].0.model() == out@[a]@);
            assert(entries[b].0.model() == out@[b]@);
        }
        assert forall|h: Seq<u8>| #[trigger] files@.dom().contains(h) <==> exists|k: int|
            0 <= k < out@.len() && (#[trigger] out@[k])@ == h by {
            if files@.dom().contains(h) {
                let k = key_position(entries, h);
                assert(has_key(entries, h));
                assert(out@[k]@ == h);
            }
            if exists|k: int| 0 <= k < out@.len() && (#[trigger] out@[k])@ == h {
                let k = choose|k: int| 0 <= k < out@.len() && (#[trigger] out@[k])@ == h;
                entry_found(entries, k);
            }
        }
    }
    out
}

// ── laws ────────────────────────────────────────────────────────────────────

/// A snapshot that is written is the current one of its package, provided that
/// no other manifest lies under its hash.
pub proof fn written_snapshot_is_current(v: StoreView, m: ManifestView)
    requires
        manifest_fits(m),
        m.version == MANIFEST_VERSION,
    ensures
        ({
            let h = blake3_hash(manifest_bytes(m));
            let w = with_snapshot(v, m);
            h.len() == 32 && (v.manifests.contains_key(h) ==> v.manifests[h] == manifest_bytes(m))
                ==> pointing(w.pointers).contains(m.package_name) && sound_manifest(
                w.manifests,
                pointed(POINTER_PREFIX@, w.pointers[m.package_name])->0,
            ) == Some(m)
        }),
{
    let h = blake3_hash(manifest_bytes(m));
    reveal_strlit("ambient-snapshot-v1 ");
    if h.len() == 32 {
        pointer_reads_back(POINTER_PREFIX@, h);
    }
    manifest_reads_back(m);
}

/// The manifest of a snapshot is in place before the pointer names it.
pub proof fn manifest_comes_before_its_pointer(v: StoreView, m: ManifestView)
    ensures
        ({
            let h = blake3_hash(manifest_bytes(m));
            let w = with_snapshot(v, m);
            let n = w.journal.len();
            &&& w.journal[n - 1] == ChangeView::Write(
                path_join(path_join(v.root, SNAPSHOT_POINTER@), m.package_name),
                encode_utf8(pointer_text(POINTER_PREFIX@, h)),
            )
            &&& v.manifests.contains_key(h) || w.journal[n - 2] == ChangeView::Write(
                hash_path(v.root, "meta"@, h),
                manifest_bytes(m),
            )
        }),
{
}

/// Writing the snapshot of one package leaves the pointers of the others.
pub proof fn snapshots_of_packages_are_independent(v: StoreView, m: ManifestView, p: Seq<char>)
    requires
        p != m.package_name,
    ensures
        with_snapshot(v, m).pointers.contains_key(p) == v.pointers.contains_key(p),
        v.pointers.contains_key(p) ==> with_snapshot(v, m).pointers[p] == v.pointers[p],
{
}

} // verus!
