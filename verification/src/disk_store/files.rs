//! The files of a store: where each lies, and what changes are to be made.
//!
//! The store itself touches no file. It works on what the host has read, and
//! notes the changes that the host then makes, in order.

use vstd::prelude::*;

use crate::digest::{hash_hex_bytes, hex_text, is_hash_hex, Digest};
use crate::ordmap::OrdMap;
use crate::text::{chars_of, owned, push_text, text_between};

verus! {

broadcast use vstd::string::group_string_axioms;

/// What the file `format` of a store holds.
pub const FORMAT_MARKER: &'static str = "ambient-store-v1\n";

// ── paths ───────────────────────────────────────────────────────────────────

/// A path below another, with `/` between components. A path that begins with
/// `/` replaces what it is joined to.
pub open spec fn path_join(base: Seq<char>, part: Seq<char>) -> Seq<char> {
    if part.len() > 0 && part[0] == '/' {
        part
    } else if base.len() == 0 || base.last() == '/' {
        base + part
    } else {
        base.push('/') + part
    }
}

/// The path of a file named by a hash: the first two digits are a directory.
pub open spec fn hash_path(root: Seq<char>, area: Seq<char>, hash: Seq<u8>) -> Seq<char> {
    let hex = hex_text(hash);
    path_join(path_join(path_join(root, area), hex.take(2)), hex.skip(2))
}

/// A path below another.
pub fn join_path(base: &str, part: &str) -> (r: String)
    ensures
        r@ == path_join(base@, part@),
{
    let first = chars_of(part);
    let before = chars_of(base);
    if first.len() > 0 && first[0] == '/' {
        return owned(part);
    }
    let mut out = owned(base);
    if before.len() > 0 && before[before.len() - 1] != '/' {
        out.push('/');
    }
    push_text(&mut out, part);
    assert(out@ =~= path_join(base@, part@));
    out
}

/// The path of a file named by a hash.
pub fn join_hash_path(root: &str, area: &str, hash: &Digest) -> (r: String)
    ensures
        r@ == hash_path(root@, area@, hash@),
{
    let hex = hash.to_hex();
    let digits = chars_of(hex.as_str());
    assert(digits@.len() == 64);
    let first = text_between(digits.as_slice(), 0, 2);
    let rest = text_between(digits.as_slice(), 2, digits.len());
    assert(first@ =~= digits@.take(2));
    assert(rest@ =~= digits@.skip(2));
    let dir = join_path(root, area);
    let sub = join_path(dir.as_str(), first.as_str());
    join_path(sub.as_str(), rest.as_str())
}

/// The hash that a file is named by, from the names of its directory and of the
/// file; `None` where they are no hash.
pub open spec fn named_hash(directory: Seq<char>, file: Seq<char>) -> Option<Seq<u8>> {
    if is_hash_hex(directory + file) {
        Some(hash_hex_bytes(directory + file))
    } else {
        None
    }
}

/// The hash that a file is named by, from the names of its directory and of the
/// file.
pub fn hash_of_file(directory: &str, file: &str) -> (r: Option<Digest>)
    ensures
        match named_hash(directory@, file@) {
            Some(h) => r matches Some(d) && d@ == h,
            None => r is None,
        },
{
    let mut hex = owned(directory);
    push_text(&mut hex, file);
    Digest::from_hex(hex.as_str())
}

/// A file under the path of a hash is found under that hash again.
pub proof fn hash_path_names_its_hash(hash: Seq<u8>)
    requires
        hash.len() == 32,
    ensures
        named_hash(hex_text(hash).take(2), hex_text(hash).skip(2)) == Some(hash),
{
    let hex = hex_text(hash);
    crate::digest::hex_roundtrip(hash);
    assert(hex.take(2) + hex.skip(2) =~= hex);
}

// ── changes ─────────────────────────────────────────────────────────────────

/// A change of a file.
#[derive(Debug)]
pub enum FileChange {
    /// Make a directory, unless it is there.
    MakeDirectory(String),
    /// Replace what a file holds, at once.
    Write(String, Vec<u8>),
    /// Remove a file.
    Remove(String),
}

/// What a [`FileChange`] says.
pub enum ChangeView {
    /// Make a directory, unless it is there.
    MakeDirectory(Seq<char>),
    /// Replace what a file holds, at once.
    Write(Seq<char>, Seq<u8>),
    /// Remove a file.
    Remove(Seq<char>),
}

impl View for FileChange {
    type V = ChangeView;

    open spec fn view(&self) -> ChangeView {
        match *self {
            FileChange::MakeDirectory(p) => ChangeView::MakeDirectory(p@),
            FileChange::Write(p, b) => ChangeView::Write(p@, b@),
            FileChange::Remove(p) => ChangeView::Remove(p@),
        }
    }
}

/// What some changes say.
pub open spec fn change_views(s: Seq<FileChange>) -> Seq<ChangeView> {
    Seq::new(s.len(), |i: int| s[i]@)
}

/// What files named by a hash hold.
pub open spec fn blob_map(m: Map<Seq<u8>, Vec<u8>>) -> Map<Seq<u8>, Seq<u8>> {
    m.map_values(|b: Vec<u8>| b@)
}

/// What named files hold.
pub open spec fn file_map(m: Map<Seq<char>, String>) -> Map<Seq<char>, Seq<char>> {
    m.map_values(|s: String| s@)
}

/// What the host has read of a store.
#[derive(Debug)]
pub struct StoreImage {
    /// What the file `format` holds, if it is there.
    pub format: Option<String>,
    /// What the file `names` holds, if it is there.
    pub names: Option<String>,
    /// What the file `signatures` holds, if it is there.
    pub signatures: Option<String>,
    /// What the file `migrations` holds, if it is there.
    pub migrations: Option<String>,
    /// The files of `objects`.
    pub objects: OrdMap<Digest, Vec<u8>>,
    /// The files of `meta`.
    pub manifests: OrdMap<Digest, Vec<u8>>,
    /// The files of `prelink`.
    pub prelinks: OrdMap<Digest, Vec<u8>>,
    /// The files of `snapshots`, by package.
    pub pointers: OrdMap<String, String>,
    /// The files of `tags`.
    pub tags: OrdMap<String, String>,
}

impl StoreImage {
    /// A store of which no file is there.
    pub fn new() -> (r: StoreImage)
        ensures
            r.format is None,
            r.names is None,
            r.signatures is None,
            r.migrations is None,
            r.objects@ == Map::<Seq<u8>, Vec<u8>>::empty(),
            r.manifests@ == Map::<Seq<u8>, Vec<u8>>::empty(),
            r.prelinks@ == Map::<Seq<u8>, Vec<u8>>::empty(),
            r.pointers@ == Map::<Seq<char>, String>::empty(),
            r.tags@ == Map::<Seq<char>, String>::empty(),
    {
        StoreImage {
            format: None,
            names: None,
            signatures: None,
            migrations: None,
            objects: OrdMap::new(),
            manifests: OrdMap::new(),
            prelinks: OrdMap::new(),
            pointers: OrdMap::new(),
            tags: OrdMap::new(),
        }
    }
}

} // verus!
