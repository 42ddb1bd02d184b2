//! The objects of a store.
//!
//! An object lies under the hash of its encoding, so that reading it shows
//! whether it is intact. A redirect lies under the hash of a member of a group
//! and points at the group.

use vstd::prelude::*;

use crate::bytecode::{CompiledFunction, FunctionView};
use crate::digest::{blake3_hash, Digest};
use crate::disk_store::error::{DiskStoreError, StoreFault};
use crate::disk_store::files::{
    blob_map, change_views, file_map, hash_path, join_hash_path, join_path, path_join, ChangeView,
    FileChange, StoreImage, FORMAT_MARKER,
};
use crate::object::{
    function_pairs, loaded_members, materialized, object_bytes, object_fits, object_hash,
    object_parse, object_reads_back, sibling_hashes, MemberView, ObjectView, RedirectView,
    StoredObject,
};
use crate::order::text_same;
use crate::ordmap::{Key, OrdMap};
use crate::text::{opt_text, owned};
use crate::wire::{copy_bytes, Wire};

verus! {

broadcast use {vstd::string::group_string_axioms, vstd::array::group_array_axioms};

/// A content-addressed store: what the host has read of it, and the changes
/// that the host is to make.
#[derive(Debug)]
pub struct DiskStore {
    /// The directory of the store.
    pub root: String,
    /// What the file `names` holds, if it is there.
    pub names: Option<String>,
    /// What the file `signatures` holds, if it is there.
    pub signatures: Option<String>,
    /// What the file `migrations` holds, if it is there.
    pub migrations: Option<String>,
    /// The files of `objects`.
    pub objects: OrdMap<Digest, Vec<u8>>,
    /// The files of `meta`.
    pub manifests: OrdMap<Digest, Vec<u8>>,
    /// The files of `prelink`.
    pub prelinks: OrdMap<Digest, Vec<u8>>,
    /// The files of `snapshots`, by package.
    pub pointers: OrdMap<String, String>,
    /// The files of `tags`.
    pub tags: OrdMap<String, String>,
    /// The changes to be made, in order.
    pub journal: Vec<FileChange>,
}

/// What a [`DiskStore`] holds.
#[verifier::ext_equal]
pub struct StoreView {
    /// The directory of the store.
    pub root: Seq<char>,
    /// What the file `names` holds, if it is there.
    pub names: Option<Seq<char>>,
    /// What the file `signatures` holds, if it is there.
    pub signatures: Option<Seq<char>>,
    /// What the file `migrations` holds, if it is there.
    pub migrations: Option<Seq<char>>,
    /// The files of `objects`.
    pub objects: Map<Seq<u8>, Seq<u8>>,
    /// The files of `meta`.
    pub manifests: Map<Seq<u8>, Seq<u8>>,
    /// The files of `prelink`.
    pub prelinks: Map<Seq<u8>, Seq<u8>>,
    /// The files of `snapshots`, by package.
    pub pointers: Map<Seq<char>, Seq<char>>,
    /// The files of `tags`.
    pub tags: Map<Seq<char>, Seq<char>>,
    /// The changes to be made, in order.
    pub journal: Seq<ChangeView>,
}

impl View for DiskStore {
    type V = StoreView;

    open spec fn view(&self) -> StoreView {
        StoreView {
            root: self.root@,
            names: opt_text(self.names),
            signatures: opt_text(self.signatures),
            migrations: opt_text(self.migrations),
            objects: blob_map(self.objects@),
            manifests: blob_map(self.manifests@),
            prelinks: blob_map(self.prelinks@),
            pointers: file_map(self.pointers@),
            tags: file_map(self.tags@),
            journal: change_views(self.journal@),
        }
    }
}

// ── opening ─────────────────────────────────────────────────────────────────

/// What a store holds when it is opened. The directory of the objects is made,
/// and a store without the file `format` gets it; one of another format is
/// refused.
pub open spec fn opened(root: Seq<char>, image: StoreImage) -> Result<StoreView, StoreFault> {
    let made = seq![ChangeView::MakeDirectory(path_join(root, "objects"@))];
    let marked = made.push(
        ChangeView::Write(
            path_join(root, "format"@),
            vstd::utf8::encode_utf8(FORMAT_MARKER@),
        ),
    );
    if image.format is Some && image.format->0@ != FORMAT_MARKER@ {
        Err(StoreFault::UnknownFormat(image.format->0@))
    } else {
        Ok(
            StoreView {
                root,
                names: opt_text(image.names),
                signatures: opt_text(image.signatures),
                migrations: opt_text(image.migrations),
                objects: blob_map(image.objects@),
                manifests: blob_map(image.manifests@),
                prelinks: blob_map(image.prelinks@),
                pointers: file_map(image.pointers@),
                tags: file_map(image.tags@),
                journal: if image.format is Some {
                    made
                } else {
                    marked
                },
            },
        )
    }
}

/// The bytes of text.
pub fn text_bytes(text: &str) -> (r: Vec<u8>)
    ensures
        r@ == vstd::utf8::encode_utf8(text@),
{
    let raw = text.as_bytes();
    let mut out: Vec<u8> = Vec::new();
    crate::wire::put_raw(raw, &mut out);
    assert(out@ =~= raw@);
    out
}

impl DiskStore {
    /// Open a store, or begin one where there is none.
    pub fn open(root: &str, image: StoreImage) -> (r: Result<DiskStore, DiskStoreError>)
        ensures
            match opened(root@, image) {
                Ok(v) => r matches Ok(s) && s@ == v,
                Err(e) => r matches Err(f) && f@ == e,
            },
    {
        let ghost given = image;
        let mut journal: Vec<FileChange> = Vec::new();
        journal.push(FileChange::MakeDirectory(join_path(root, "objects")));
        match &image.format {
            Some(found) => {
                if !text_same(found.as_str(), FORMAT_MARKER) {
                    return Err(DiskStoreError::UnknownFormat(owned(found.as_str())));
                }
            },
            None => {
                journal.push(
                    FileChange::Write(join_path(root, "format"), text_bytes(FORMAT_MARKER)),
                );
            },
        }
        let s = DiskStore {
            root: owned(root),
            names: image.names,
            signatures: image.signatures,
            migrations: image.migrations,
            objects: image.objects,
            manifests: image.manifests,
            prelinks: image.prelinks,
            pointers: image.pointers,
            tags: image.tags,
            journal,
        };
        assert(s@ =~= opened(root@, given)->Ok_0);
        Ok(s)
    }

    /// The directory of the store.
    pub fn root(&self) -> (r: &str)
        ensures
            r@ == self@.root,
    {
        self.root.as_str()
    }

    /// Take out the changes that are to be made, in order.
    pub fn take_changes(&mut self) -> (r: Vec<FileChange>)
        ensures
            change_views(r@) == old(self)@.journal,
            final(self)@ == (StoreView { journal: seq![], ..old(self)@ }),
    {
        let ghost was = self@;
        let mut out: Vec<FileChange> = Vec::new();
        std::mem::swap(&mut out, &mut self.journal);
        assert(self@ =~= (StoreView { journal: seq![], ..was }));
        out
    }
}

// ── writing ─────────────────────────────────────────────────────────────────

/// With a file of `objects`, unless there is one of that hash.
pub open spec fn with_object_file(v: StoreView, at: Seq<u8>, o: ObjectView) -> StoreView {
    if v.objects.contains_key(at) {
        v
    } else {
        StoreView {
            objects: v.objects.insert(at, object_bytes(o)),
            journal: v.journal.push(
                ChangeView::Write(hash_path(v.root, "objects"@, at), object_bytes(o)),
            ),
            ..v
        }
    }
}

impl DiskStore {
    /// The path of the file of an object.
    pub fn object_path(&self, hash: &Digest) -> (r: String)
        ensures
            r@ == hash_path(self@.root, "objects"@, hash@),
    {
        join_hash_path(self.root.as_str(), "objects", hash)
    }

    /// Whether there is a file of an object.
    pub fn contains(&self, hash: &Digest) -> (r: bool)
        ensures
            r == self@.objects.contains_key(hash@),
    {
        self.objects.contains_key(hash)
    }

    /// Write an object under a hash, unless there is one; say whether it was
    /// written. Redirects lie under the hash of the member that they stand for.
    pub fn put_object_at(&mut self, at: &Digest, object: &StoredObject) -> (r: bool)
        ensures
            r == !old(self)@.objects.contains_key(at@),
            final(self)@ == with_object_file(old(self)@, at@, object.content()),
    {
        let ghost was = self@;
        if self.objects.contains_key(at) {
            return false;
        }
        let path = self.object_path(at);
        let bytes = object.encode();
        self.journal.push(FileChange::Write(path, copy_bytes(&bytes)));
        self.objects.insert(*at, bytes);
        assert(self@ =~= with_object_file(was, at@, object.content()));
        true
    }

    /// Write an object under its own hash.
    pub fn put_object(&mut self, object: &StoredObject) -> (r: Digest)
        ensures
            r@ == object_hash(object.content()),
            final(self)@ == with_object_file(
                old(self)@,
                object_hash(object.content()),
                object.content(),
            ),
    {
        let hash = object.hash();
        self.put_object_at(&hash, object);
        hash
    }
}

// ── reading ─────────────────────────────────────────────────────────────────

/// The object under a hash. It must be intact: a redirect stands for what it
/// points at, anything else must have the hash that it lies under.
pub open spec fn object_at(objects: Map<Seq<u8>, Seq<u8>>, h: Seq<u8>) -> Result<
    Option<ObjectView>,
    StoreFault,
> {
    if !objects.contains_key(h) {
        Ok(None)
    } else {
        match object_parse(objects[h]) {
            Err(error) => Err(StoreFault::Object { hash: h, error }),
            Ok(o) => if !(o is Redirect) && blake3_hash(objects[h]) != h {
                Err(StoreFault::Corrupt { expected: h, actual: blake3_hash(objects[h]) })
            } else {
                Ok(Some(o))
            },
        }
    }
}

/// The first function under a hash.
pub open spec fn first_under(fs: Seq<(Seq<u8>, FunctionView)>, h: Seq<u8>, from: int) -> Option<
    FunctionView,
>
    decreases fs.len() - from,
{
    if from < 0 || from >= fs.len() {
        None
    } else if fs[from].0 == h {
        Some(fs[from].1)
    } else {
        first_under(fs, h, from + 1)
    }
}

/// The function that an object holds under a hash.
pub open spec fn function_in(h: Seq<u8>, holder: Seq<u8>, o: ObjectView) -> Result<
    Option<FunctionView>,
    StoreFault,
> {
    match materialized(o) {
        Err(error) => Err(StoreFault::Object { hash: holder, error }),
        Ok(fs) => match first_under(fs, h, 0) {
            Some(f) => Ok(Some(f)),
            None => Err(StoreFault::BadRedirect { member: h, group: holder }),
        },
    }
}

/// The function under a hash: that of the object, or of the group that it
/// redirects to.
pub open spec fn function_at(objects: Map<Seq<u8>, Seq<u8>>, h: Seq<u8>) -> Result<
    Option<FunctionView>,
    StoreFault,
> {
    match object_at(objects, h) {
        Err(e) => Err(e),
        Ok(None) => Ok(None),
        Ok(Some(ObjectView::Redirect(t))) => match object_at(objects, t.group) {
            Err(e) => Err(e),
            Ok(None) => Ok(None),
            Ok(Some(g)) => function_in(h, t.group, g),
        },
        Ok(Some(o)) => function_in(h, h, o),
    }
}

impl DiskStore {
    /// The object under a hash, if there is one, checked.
    pub fn get_object(&self, hash: &Digest) -> (r: Result<Option<StoredObject>, DiskStoreError>)
        ensures
            match object_at(self@.objects, hash@) {
                Ok(Some(o)) => r matches Ok(Some(x)) && x.content() == o,
                Ok(None) => r matches Ok(None),
                Err(e) => r matches Err(f) && f@ == e,
            },
    {
        let bytes = match self.objects.get(hash) {
            None => {
                return Ok(None);
            },
            Some(b) => b,
        };
        assert(self@.objects[hash@] == bytes@);
        let object = match StoredObject::decode(bytes.as_slice()) {
            Err(error) => {
                return Err(DiskStoreError::Object { hash: *hash, error });
            },
            Ok(o) => o,
        };
        let redirect = match &object {
            StoredObject::Redirect(_) => true,
            _ => false,
        };
        assert(redirect == (object.content() is Redirect));
        if !redirect {
            let actual = Digest::of(bytes.as_slice());
            if !actual.same(hash) {
                return Err(DiskStoreError::Corrupt { expected: *hash, actual });
            }
        }
        Ok(Some(object))
    }

    /// The function under a hash, if there is one: redirects are followed, and
    /// everything on the way is checked.
    pub fn get_function(&self, hash: &Digest) -> (r: Result<
        Option<CompiledFunction>,
        DiskStoreError,
    >)
        ensures
            match function_at(self@.objects, hash@) {
                Ok(Some(f)) => r matches Ok(Some(x)) && x@ == f,
                Ok(None) => r matches Ok(None),
                Err(e) => r matches Err(x) && x@ == e,
            },
    {
        let object = match self.get_object(hash)? {
            None => {
                return Ok(None);
            },
            Some(o) => o,
        };
        let (holder, object) = match object {
            StoredObject::Redirect(t) => match self.get_object(&t.group)? {
                None => {
                    return Ok(None);
                },
                Some(g) => (t.group, g),
            },
            other => (*hash, other),
        };
        let fs = match object.materialize() {
            Err(error) => {
                return Err(DiskStoreError::Object { hash: holder, error });
            },
            Ok(fs) => fs,
        };
        let ghost all = function_pairs(fs@);
        let mut i: usize = 0;
        while i < fs.len()
            invariant
                i <= fs@.len(),
                all == function_pairs(fs@),
                function_at(self@.objects, hash@) == (match first_under(all, hash@, i as int) {
                    Some(f) => Ok::<Option<FunctionView>, StoreFault>(Some(f)),
                    None => Err(StoreFault::BadRedirect { member: hash@, group: holder@ }),
                }),
            decreases fs@.len() - i,
        {
            assert(all[i as int] == (fs@[i as int].0@, fs@[i as int].1@));
            if fs[i].0.same(hash) {
                return Ok(Some(fs[i].1.copy()));
            }
            i = i + 1;
        }
        Err(DiskStoreError::BadRedirect { member: *hash, group: holder })
    }
}

// ── laws ────────────────────────────────────────────────────────────────────

/// An object that is written is read back.
pub proof fn written_object_is_read_back(v: StoreView, o: ObjectView)
    requires
        object_fits(o),
        !v.objects.contains_key(object_hash(o)),
    ensures
        object_at(with_object_file(v, object_hash(o), o).objects, object_hash(o)) == Ok::<
            Option<ObjectView>,
            StoreFault,
        >(Some(o)),
{
    object_reads_back(o);
}

/// A redirect that is written under the hash of a member is read back.
pub proof fn written_redirect_is_read_back(v: StoreView, at: Seq<u8>, o: ObjectView)
    requires
        object_fits(o),
        o is Redirect,
        !v.objects.contains_key(at),
    ensures
        object_at(with_object_file(v, at, o).objects, at) == Ok::<Option<ObjectView>, StoreFault>(
            Some(o),
        ),
{
    object_reads_back(o);
}

/// Writing an object leaves what lies under every other hash as it was, and an
/// object that is there stays.
pub proof fn writing_keeps_other_objects(v: StoreView, at: Seq<u8>, o: ObjectView, h: Seq<u8>)
    requires
        h != at || v.objects.contains_key(h),
    ensures
        object_at(with_object_file(v, at, o).objects, h) == object_at(v.objects, h),
        function_at(v.objects, h) is Ok && function_at(v.objects, h)->Ok_0 is Some ==> function_at(
            with_object_file(v, at, o).objects,
            h,
        ) == function_at(v.objects, h),
{
}

/// Whatever is read under a hash that is not a redirect's has that hash: no
/// change of the bytes goes unnoticed.
pub proof fn what_is_read_has_its_hash(objects: Map<Seq<u8>, Seq<u8>>, h: Seq<u8>)
    ensures
        object_at(objects, h) is Ok && object_at(objects, h)->Ok_0 is Some && !(object_at(
            objects,
            h,
        )->Ok_0->0 is Redirect) ==> blake3_hash(objects[h]) == h,
        objects.contains_key(h) && object_parse(objects[h]) is Ok && !(object_parse(
            objects[h],
        )->Ok_0 is Redirect) && blake3_hash(objects[h]) != h ==> object_at(objects, h) is Err,
{
}

proof fn lemma_members_in_order(ms: Seq<MemberView>, siblings: Seq<Seq<u8>>, k: int)
    requires
        0 <= k,
        loaded_members(ms, siblings, k) is Ok,
    ensures
        loaded_members(ms, siblings, k)->Ok_0.len() == k,
        forall|i: int|
            0 <= i < k ==> (#[trigger] loaded_members(ms, siblings, k)->Ok_0[i]).0 == siblings[i],
    decreases k,
{
    if k > 0 {
        lemma_members_in_order(ms, siblings, k - 1);
        let done = loaded_members(ms, siblings, k - 1)->Ok_0;
        let all = loaded_members(ms, siblings, k)->Ok_0;
        assert forall|i: int| 0 <= i < k implies (#[trigger] all[i]).0 == siblings[i] by {
            if i < k - 1 {
                assert(all[i] == done[i]);
            }
        }
    }
}

proof fn lemma_first_under(fs: Seq<(Seq<u8>, FunctionView)>, h: Seq<u8>, from: int, at: int)
    requires
        0 <= from <= at < fs.len(),
        fs[at].0 == h,
    ensures
        first_under(fs, h, from) is Some,
        exists|i: int|
            0 <= i < fs.len() && (#[trigger] fs[i]).0 == h && Some(fs[i].1) == first_under(
                fs,
                h,
                from,
            ),
    decreases at - from,
{
    if fs[from].0 != h {
        lemma_first_under(fs, h, from + 1, at);
    }
}

/// A member of a group is read back under its own hash, once the group lies under
/// its hash and the redirect of the member under the member's.
pub proof fn group_member_is_read_back(
    objects: Map<Seq<u8>, Seq<u8>>,
    ms: Seq<MemberView>,
    group: Seq<u8>,
    index: int,
    member: Seq<u8>,
)
    requires
        group == object_hash(ObjectView::Group(ms)),
        0 <= index < ms.len(),
        member == sibling_hashes(group, ms.len())[index],
        object_fits(ObjectView::Group(ms)),
        object_fits(ObjectView::Redirect(RedirectView { group, index: index as u32 })),
        objects.contains_key(group),
        objects[group] == object_bytes(ObjectView::Group(ms)),
        objects.contains_key(member),
        objects[member] == object_bytes(
            ObjectView::Redirect(RedirectView { group, index: index as u32 }),
        ),
        materialized(ObjectView::Group(ms)) is Ok,
    ensures
        function_at(objects, member) is Ok,
        function_at(objects, member)->Ok_0 is Some,
        exists|i: int|
            0 <= i < materialized(ObjectView::Group(ms))->Ok_0.len() && (
            #[trigger] materialized(ObjectView::Group(ms))->Ok_0[i]) == (
                member,
                function_at(objects, member)->Ok_0->0,
            ),
{
    let o = ObjectView::Group(ms);
    let redirect = ObjectView::Redirect(RedirectView { group, index: index as u32 });
    object_reads_back(o);
    object_reads_back(redirect);
    let siblings = sibling_hashes(group, ms.len());
    lemma_members_in_order(ms, siblings, ms.len() as int);
    let fs = materialized(o)->Ok_0;
    assert(fs[index].0 == member);
    lemma_first_under(fs, member, 0, index);
    let i = choose|i: int|
        0 <= i < fs.len() && (#[trigger] fs[i]).0 == member && Some(fs[i].1) == first_under(
            fs,
            member,
            0,
        );
    assert(fs[i] == (member, function_at(objects, member)->Ok_0->0));
}

} // verus!
