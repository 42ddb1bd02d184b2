//! Tags: names that keep a build manifest.

use vstd::prelude::*;
use vstd::utf8::encode_utf8;

use crate::digest::{hex_text, Digest};
use crate::disk_store::error::{fault_text, DiskStoreError, StoreFault};
use crate::disk_store::files::{file_map, join_path, path_join, ChangeView, FileChange};
use crate::disk_store::manifests::{
    manifest_at, pair_names, parse_pointed, pointed, pointer_reads_back, pointer_text,
    render_pointer,
};
use crate::disk_store::objects::{text_bytes, DiskStore, StoreView};
use crate::order::{enumerates, text_same};
use crate::ordmap::{entries_map, entry_found, keys_increase, picked, picked_enumerates};
use crate::text::{chars_of, owned, push_text};

verus! {

broadcast use {vstd::string::group_string_axioms, vstd::array::group_array_axioms};

/// What a tag begins with.
pub const TAG_PREFIX: &'static str = "ambient-tag-v1 ";

/// The most characters that a tag name has.
pub const MAX_TAG_NAME: usize = 128;

/// Whether a character may stand in a tag name.
pub open spec fn tag_char(c: char) -> bool {
    ||| 'a' <= c <= 'z'
    ||| 'A' <= c <= 'Z'
    ||| '0' <= c <= '9'
    ||| c == '.'
    ||| c == '_'
    ||| c == '-'
}

/// Whether text is a tag name: letters, digits, dots, underscores and hyphens,
/// and not one of the two names that stand for a directory.
pub open spec fn valid_tag_name(name: Seq<char>) -> bool {
    &&& 0 < name.len() <= MAX_TAG_NAME
    &&& name != "."@
    &&& name != ".."@
    &&& forall|i: int| 0 <= i < name.len() ==> tag_char(#[trigger] name[i])
}

/// Whether a character may stand in a tag name.
fn is_tag_char(c: char) -> (r: bool)
    ensures
        r == tag_char(c),
{
    ('a' <= c && c <= 'z') || ('A' <= c && c <= 'Z') || ('0' <= c && c <= '9') || c == '.' || c
        == '_' || c == '-'
}

/// Whether text is a tag name.
pub fn is_valid_tag_name(name: &str) -> (r: bool)
    ensures
        r == valid_tag_name(name@),
{
    let chars = chars_of(name);
    if chars.len() == 0 || chars.len() > MAX_TAG_NAME {
        return false;
    }
    if text_same(name, ".") || text_same(name, "..") {
        return false;
    }
    let mut i: usize = 0;
    while i < chars.len()
        invariant
            i <= chars@.len(),
            chars@ == name@,
            forall|k: int| 0 <= k < i ==> tag_char(#[trigger] chars@[k]),
        decreases chars@.len() - i,
    {
        if !is_tag_char(chars[i]) {
            assert(!tag_char(name@[i as int]));
            return false;
        }
        i = i + 1;
    }
    true
}

/// A tag is a file right below the directory of the tags, whatever its name is.
pub proof fn tag_stays_in_its_directory(directory: Seq<char>, name: Seq<char>)
    requires
        valid_tag_name(name),
        directory.len() > 0,
        directory.last() != '/',
    ensures
        path_join(directory, name) == directory.push('/') + name,
        forall|i: int| 0 <= i < name.len() ==> #[trigger] name[i] != '/',
{
    assert forall|i: int| 0 <= i < name.len() implies #[trigger] name[i] != '/' by {
        assert(tag_char(name[i]));
    }
    assert(name[0] != '/');
}

// ── tags ────────────────────────────────────────────────────────────────────

/// With a tag.
pub open spec fn with_tag(v: StoreView, name: Seq<char>, hash: Seq<u8>) -> StoreView {
    let content = pointer_text(TAG_PREFIX@, hash);
    StoreView {
        tags: v.tags.insert(name, content),
        journal: v.journal.push(
            ChangeView::Write(path_join(path_join(v.root, "tags"@), name), encode_utf8(content)),
        ),
        ..v
    }
}

/// The hash that a tag names.
pub open spec fn tagged(tags: Map<Seq<char>, Seq<char>>, name: Seq<char>) -> Option<Seq<u8>> {
    if tags.contains_key(name) {
        pointed(TAG_PREFIX@, tags[name])
    } else {
        None
    }
}

/// The tags that name a hash.
pub open spec fn tagging(tags: Map<Seq<char>, Seq<char>>) -> Set<Seq<char>> {
    Set::new(|n: Seq<char>| valid_tag_name(n) && tagged(tags, n) is Some)
}

/// Whether pairs are the tags with the hashes that they name, in order.
pub open spec fn lists_tags(tags: Map<Seq<char>, Seq<char>>, s: Seq<(String, Digest)>) -> bool {
    &&& enumerates(pair_names(s), tagging(tags))
    &&& forall|i: int| 0 <= i < s.len() ==> tagged(tags, (#[trigger] s[i]).0@) == Some(s[i].1@)
}

/// What is wrong with a tag, if something is.
pub open spec fn tag_fault(
    manifests: Map<Seq<u8>, Seq<u8>>,
    name: Seq<char>,
    content: Seq<char>,
) -> Option<Seq<char>> {
    if !valid_tag_name(name) {
        Some("tag name is not a valid tag name"@)
    } else {
        match pointed(TAG_PREFIX@, content) {
            None => Some("tag file is malformed"@),
            Some(h) => match manifest_at(manifests, h) {
                Ok(Some(_)) => None,
                Ok(None) => Some("names missing manifest "@ + hex_text(h)),
                Err(e) => Some("names bad manifest "@ + hex_text(h) + ": "@ + fault_text(e)),
            },
        }
    }
}

/// The tags with which something is wrong.
pub open spec fn bad_tags(
    manifests: Map<Seq<u8>, Seq<u8>>,
    tags: Map<Seq<char>, Seq<char>>,
) -> Set<Seq<char>> {
    Set::new(
        |n: Seq<char>| tags.contains_key(n) && tag_fault(manifests, n, tags[n]) is Some,
    )
}

/// The first parts of pairs of text.
pub open spec fn first_texts(s: Seq<(String, String)>) -> Seq<Seq<char>> {
    Seq::new(s.len(), |i: int| s[i].0@)
}

/// Whether pairs are the tags with which something is wrong, with what is, in
/// order.
pub open spec fn lists_bad_tags(
    manifests: Map<Seq<u8>, Seq<u8>>,
    tags: Map<Seq<char>, Seq<char>>,
    s: Seq<(String, String)>,
) -> bool {
    &&& enumerates(first_texts(s), bad_tags(manifests, tags))
    &&& forall|i: int|
        0 <= i < s.len() ==> tag_fault(manifests, (#[trigger] s[i]).0@, tags[s[i].0@]) == Some(
            s[i].1@,
        )
}

impl DiskStore {
    /// The path of a tag.
    pub fn tag_path(&self, name: &str) -> (r: String)
        ensures
            r@ == path_join(path_join(self@.root, "tags"@), name@),
    {
        let dir = join_path(self.root.as_str(), "tags");
        join_path(dir.as_str(), name)
    }

    /// Name a manifest by a tag. A tag of that name is replaced; a name that is
    /// none is refused.
    pub fn write_tag(&mut self, name: &str, manifest: &Digest) -> (r: Result<(), DiskStoreError>)
        ensures
            if valid_tag_name(name@) {
                r is Ok && final(self)@ == with_tag(old(self)@, name@, manifest@)
            } else {
                r matches Err(e) && e@ == StoreFault::InvalidTagName(name@) && final(self)@ == old(
                    self,
                )@
            },
    {
        let ghost was = self@;
        if !is_valid_tag_name(name) {
            return Err(DiskStoreError::InvalidTagName(owned(name)));
        }
        let content = render_pointer(TAG_PREFIX, manifest);
        let path = self.tag_path(name);
        self.journal.push(FileChange::Write(path, text_bytes(content.as_str())));
        self.tags.insert(owned(name), content);
        assert(self@ =~= with_tag(was, name@, manifest@));
        Ok(())
    }

    /// The hash that a tag names. A malformed tag names none.
    pub fn read_tag(&self, name: &str) -> (r: Option<Digest>)
        ensures
            match tagged(self@.tags, name@) {
                Some(h) => r matches Some(d) && d@ == h,
                None => r is None,
            },
    {
        match self.tags.get_text(name) {
            None => None,
            Some(content) => {
                assert(self@.tags[name@] == content@);
                parse_pointed(TAG_PREFIX, content.as_str())
            },
        }
    }

    /// The tags with the hashes that they name, in order. Malformed tags and
    /// files whose name is no tag name are passed over.
    pub fn list_tags(&self) -> (r: Vec<(String, Digest)>)
        ensures
            lists_tags(self@.tags, r@),
    {
        let items = self.tags.items();
        let ghost entries = items@;
        let ghost tags = self@.tags;
        let ghost keep = |n: Seq<char>| valid_tag_name(n) && tagged(tags, n) is Some;
        let mut out: Vec<(String, Digest)> = Vec::new();
        let mut i: usize = 0;
        assert(pair_names(out@) =~= seq![]);
        while i < items.len()
            invariant
                i <= items@.len(),
                entries == items@,
                keys_increase(entries),
                self.tags@ == entries_map(entries),
                tags == file_map(self.tags@),
                keep == (|n: Seq<char>| valid_tag_name(n) && tagged(tags, n) is Some),
                pair_names(out@) == picked(entries, i as int, keep),
                forall|k: int|
                    0 <= k < out@.len() ==> tagged(tags, (#[trigger] out@[k]).0@) == Some(
                        out@[k].1@,
                    ),
            decreases items@.len() - i,
        {
            let ghost was = pair_names(out@);
            let ghost key = entries[i as int].0@;
            proof {
                entry_found(entries, i as int);
                assert(tags.contains_key(key));
                assert(tags[key] == entries[i as int].1@);
            }
            if is_valid_tag_name(items[i].0.as_str()) {
                if let Some(hash) = parse_pointed(TAG_PREFIX, items[i].1.as_str()) {
                    out.push((owned(items[i].0.as_str()), hash));
                    assert(pair_names(out@) =~= was.push(key));
                }
            }
            i = i + 1;
        }
        proof {
            picked_enumerates(entries, keep);
            let have = Set::new(|n: Seq<char>| entries_map(entries).contains_key(n) && keep(n));
            assert forall|n: Seq<char>| have.contains(n) == tagging(tags).contains(n) by {
                assert(tags.contains_key(n) == entries_map(entries).contains_key(n));
            }
            assert(have =~= tagging(tags));
        }
        out
    }

    /// What is wrong with a tag, if something is.
    fn tag_problem(&self, name: &str, content: &str) -> (r: Option<String>)
        ensures
            match tag_fault(self@.manifests, name@, content@) {
                Some(t) => r matches Some(x) && x@ == t,
                None => r is None,
            },
    {
        if !is_valid_tag_name(name) {
            return Some(owned("tag name is not a valid tag name"));
        }
        match parse_pointed(TAG_PREFIX, content) {
            None => Some(owned("tag file is malformed")),
            Some(hash) => match self.load_manifest(&hash) {
                Ok(Some(_)) => None,
                Ok(None) => {
                    let mut text = owned("names missing manifest ");
                    push_text(&mut text, hash.to_hex().as_str());
                    Some(text)
                },
                Err(e) => {
                    let mut text = owned("names bad manifest ");
                    push_text(&mut text, hash.to_hex().as_str());
                    push_text(&mut text, ": ");
                    push_text(&mut text, e.message().as_str());
                    Some(text)
                },
            },
        }
    }

    /// The tags with which something is wrong, with what is, in order.
    pub fn tag_health(&self) -> (r: Vec<(String, String)>)
        ensures
            lists_bad_tags(self@.manifests, self@.tags, r@),
    {
        let items = self.tags.items();
        let ghost entries = items@;
        let ghost tags = self@.tags;
        let ghost manifests = self@.manifests;
        let ghost keep = |n: Seq<char>| tag_fault(manifests, n, tags[n]) is Some;
        let mut out: Vec<(String, String)> = Vec::new();
        let mut i: usize = 0;
        assert(first_texts(out@) =~= seq![]);
        while i < items.len()
            invariant
                i <= items@.len(),
                entries == items@,
                keys_increase(entries),
                self.tags@ == entries_map(entries),
                tags == file_map(self.tags@),
                manifests == self@.manifests,
                keep == (|n: Seq<char>| tag_fault(manifests, n, tags[n]) is Some),
                first_texts(out@) == picked(entries, i as int, keep),
                forall|k: int|
                    0 <= k < out@.len() ==> tag_fault(
                        manifests,
                        (#[trigger] out@[k]).0@,
                        tags[out@[k].0@],
                    ) == Some(out@[k].1@),
            decreases items@.len() - i,
        {
            let ghost was = first_texts(out@);
            let ghost key = entries[i as int].0@;
            proof {
                entry_found(entries, i as int);
                assert(tags[key] == entries[i as int].1@);
            }
            if let Some(text) = self.tag_problem(items[i].0.as_str(), items[i].1.as_str()) {
                out.push((owned(items[i].0.as_str()), text));
                assert(first_texts(out@) =~= was.push(key));
            }
            i = i + 1;
        }
        proof {
            picked_enumerates(entries, keep);
            let have = Set::new(|n: Seq<char>| entries_map(entries).contains_key(n) && keep(n));
            assert forall|n: Seq<char>| have.contains(n) == bad_tags(manifests, tags).contains(
                n,
            ) by {}
            assert(have =~= bad_tags(manifests, tags));
        }
        out
    }
}

/// A tag that is written names its hash; other tags are as they were.
pub proof fn written_tag_is_read_back(v: StoreView, name: Seq<char>, hash: Seq<u8>, n: Seq<char>)
    requires
        hash.len() == 32,
    ensures
        tagged(with_tag(v, name, hash).tags, name) == Some(hash),
        n != name ==> tagged(with_tag(v, name, hash).tags, n) == tagged(v.tags, n),
{
    reveal_strlit("ambient-tag-v1 ");
    pointer_reads_back(TAG_PREFIX@, hash);
}

} // verus!
