//! Checking everything in a store.

use vstd::prelude::*;

use crate::bytecode::digest_views;
use crate::digest::{hex_text, Digest};
use crate::disk_store::closure::{push_targets, targets};
use crate::disk_store::error::fault_text;
use crate::disk_store::manifests::{
    health_of, keys_of, lists_keys, lists_pointers, manifest_at, pair_hashes, sound_manifest,
};
use crate::disk_store::objects::{object_at, DiskStore, StoreView};
use crate::disk_store::prelinks::blob_fault;
use crate::disk_store::snapshot::modules_prelink;
use crate::disk_store::tags::{bad_tags, lists_bad_tags, lists_tags, tag_fault};
use crate::object::{
    function_pairs, materialized, member_hash, member_hash_of, ObjectView, StoredObject,
};
use crate::ordmap::OrdMap;
use crate::text::{owned, push_text};
use crate::wire::contents;

verus! {

broadcast use {vstd::string::group_string_axioms, vstd::array::group_array_axioms};

/// What checking a store has found.
#[derive(Debug)]
pub struct VerifyReport {
    /// The objects and manifests that are intact.
    pub valid: usize,
    /// The files that are not, with what is wrong.
    pub corrupt: Vec<(Digest, String)>,
    /// What is referred to and is not there.
    pub dangling: Vec<Digest>,
    /// What is wrong with a pointer, if something is.
    pub dangling_snapshot: Option<String>,
    /// The tags with which something is wrong, with what is.
    pub bad_tags: Vec<(String, String)>,
}

impl VerifyReport {
    /// Whether nothing was found.
    pub open spec fn clean(self) -> bool {
        &&& self.corrupt@.len() == 0
        &&& self.dangling@.len() == 0
        &&& self.dangling_snapshot is None
        &&& self.bad_tags@.len() == 0
    }

    /// Whether nothing was found.
    pub fn is_clean(&self) -> (r: bool)
        ensures
            r == self.clean(),
    {
        self.corrupt.len() == 0 && self.dangling.len() == 0 && self.dangling_snapshot.is_none()
            && self.bad_tags.len() == 0
    }
}

impl Default for VerifyReport {
    fn default() -> (r: VerifyReport)
        ensures
            r.valid == 0,
            r.clean(),
    {
        VerifyReport {
            valid: 0,
            corrupt: Vec::new(),
            dangling: Vec::new(),
            dangling_snapshot: None,
            bad_tags: Vec::new(),
        }
    }
}

// ── objects ─────────────────────────────────────────────────────────────────

/// What checking files has found so far.
pub struct Checked {
    /// How many are intact; the count wraps.
    pub valid: usize,
    /// The files that are not, with what is wrong.
    pub corrupt: Seq<(Seq<u8>, Seq<char>)>,
    /// What functions refer to.
    pub referenced: Set<Seq<u8>>,
}

/// With one more intact file.
pub open spec fn with_valid(c: Checked) -> Checked {
    Checked { valid: c.valid.wrapping_add(1), ..c }
}

/// With one more file that is not intact.
pub open spec fn with_corrupt(c: Checked, h: Seq<u8>, text: Seq<char>) -> Checked {
    Checked { corrupt: c.corrupt.push((h, text)), ..c }
}

/// What is wrong with a redirect, if something is: it must point at a group, and
/// lie under the hash of the member that it stands for.
pub open spec fn redirect_fault(
    objects: Map<Seq<u8>, Seq<u8>>,
    h: Seq<u8>,
    group: Seq<u8>,
    index: u32,
) -> Option<Seq<char>> {
    match object_at(objects, group) {
        Ok(Some(ObjectView::Group(ms))) => {
            let derived = member_hash_of(group, index, ms.len() as u32);
            if derived == h {
                None
            } else {
                Some("redirect derives "@ + hex_text(derived) + ", not its own path"@)
            }
        },
        Ok(_) => Some("redirect target "@ + hex_text(group) + " is not a group"@),
        Err(e) => Some(fault_text(e)),
    }
}

/// Check the object under a hash.
pub open spec fn check_object(objects: Map<Seq<u8>, Seq<u8>>, c: Checked, h: Seq<u8>) -> Checked {
    match object_at(objects, h) {
        Err(e) => with_corrupt(c, h, fault_text(e)),
        Ok(None) => c,
        Ok(Some(ObjectView::Redirect(t))) => match redirect_fault(objects, h, t.group, t.index) {
            Some(text) => with_corrupt(c, h, text),
            None => with_valid(c),
        },
        Ok(Some(o)) => match materialized(o) {
            Ok(fs) => Checked {
                referenced: c.referenced.union(targets(fs).to_set()),
                ..with_valid(c)
            },
            Err(e) => with_corrupt(with_valid(c), h, e.text()),
        },
    }
}

/// Check the objects under hashes.
pub open spec fn check_objects(objects: Map<Seq<u8>, Seq<u8>>, keys: Seq<Digest>) -> Checked
    decreases keys.len(),
{
    if keys.len() == 0 {
        Checked { valid: 0, corrupt: seq![], referenced: Set::empty() }
    } else {
        check_object(objects, check_objects(objects, keys.drop_last()), keys.last()@)
    }
}

/// Check the manifests under hashes.
pub open spec fn check_manifests(
    manifests: Map<Seq<u8>, Seq<u8>>,
    c: Checked,
    keys: Seq<Digest>,
) -> Checked
    decreases keys.len(),
{
    if keys.len() == 0 {
        c
    } else {
        let before = check_manifests(manifests, c, keys.drop_last());
        match manifest_at(manifests, keys.last()@) {
            Ok(Some(_)) => with_valid(before),
            Ok(None) => before,
            Err(e) => with_corrupt(before, keys.last()@, fault_text(e)),
        }
    }
}

/// Check the pre-link forms under hashes.
pub open spec fn check_prelinks(
    prelinks: Map<Seq<u8>, Seq<u8>>,
    c: Checked,
    keys: Seq<Digest>,
) -> Checked
    decreases keys.len(),
{
    if keys.len() == 0 {
        c
    } else {
        let before = check_prelinks(prelinks, c, keys.drop_last());
        match blob_fault(prelinks, keys.last()@) {
            Some(text) => with_corrupt(before, keys.last()@, text),
            None => before,
        }
    }
}

/// The pre-link forms that manifests refer to. A manifest that is not intact
/// counts as none.
pub open spec fn wanted_prelinks(
    manifests: Map<Seq<u8>, Seq<u8>>,
    hashes: Seq<Seq<u8>>,
) -> Set<Seq<u8>>
    decreases hashes.len(),
{
    if hashes.len() == 0 {
        Set::empty()
    } else {
        let before = wanted_prelinks(manifests, hashes.drop_last());
        match sound_manifest(manifests, hashes.last()) {
            Some(m) => before.union(modules_prelink(m.modules).to_set()),
            None => before,
        }
    }
}

/// The files that are not intact, with what is wrong.
pub open spec fn corrupt_view(s: Seq<(Digest, String)>) -> Seq<(Seq<u8>, Seq<char>)> {
    Seq::new(s.len(), |i: int| (s[i].0@, s[i].1@))
}

/// Note a file that is not intact.
fn note_corrupt(out: &mut Vec<(Digest, String)>, hash: &Digest, text: String)
    ensures
        corrupt_view(final(out)@) == corrupt_view(old(out)@).push((hash@, text@)),
{
    let ghost was = corrupt_view(out@);
    let ghost view = text@;
    out.push((*hash, text));
    assert(corrupt_view(out@) =~= was.push((hash@, view)));
}

/// Note the keys of a map that another one lacks.
fn note_absent<V>(out: &mut OrdMap<Digest, ()>, keys: &OrdMap<Digest, ()>, held: &OrdMap<Digest, V>)
    ensures
        final(out)@.dom() == old(out)@.dom().union(keys@.dom().difference(held@.dom())),
{
    let listed = keys_of(keys);
    let ghost was = out@.dom();
    let ghost gone = keys@.dom().difference(held@.dom());
    let mut i: usize = 0;
    while i < listed.len()
        invariant
            i <= listed@.len(),
            lists_keys(listed@, keys@.dom()),
            gone == keys@.dom().difference(held@.dom()),
            forall|h: Seq<u8>| #[trigger]
                out@.dom().contains(h) <==> was.contains(h) || (gone.contains(h) && exists|k: int|
                    0 <= k < i && (#[trigger] listed@[k])@ == h),
        decreases listed@.len() - i,
    {
        let ghost now = out@.dom();
        let hash = listed[i];
        assert(keys@.dom().contains(hash@));
        if !held.contains_key(&hash) {
            out.insert(hash, ());
            assert(out@.dom() =~= now.insert(hash@));
        }
        proof {
            assert forall|h: Seq<u8>| #[trigger]
                out@.dom().contains(h) <==> was.contains(h) || (gone.contains(h) && exists|k: int|
                    0 <= k < i + 1 && (#[trigger] listed@[k])@ == h) by {
                if h == hash@ {
                    assert(listed@[i as int]@ == h);
                }
                if gone.contains(h) && exists|k: int| 0 <= k < i && (#[trigger] listed@[k])@ == h {
                    let k = choose|k: int| 0 <= k < i && (#[trigger] listed@[k])@ == h;
                    assert(0 <= k < i + 1 && listed@[k]@ == h);
                }
            }
        }
        i = i + 1;
    }
    assert(out@.dom() =~= was.union(gone));
}

/// Note hashes.
fn note_hashes(out: &mut OrdMap<Digest, ()>, hashes: &Vec<Digest>)
    ensures
        final(out)@.dom() == old(out)@.dom().union(digest_views(hashes@).to_set()),
{
    let ghost was = out@.dom();
    let ghost all = digest_views(hashes@);
    let mut i: usize = 0;
    assert(out@.dom() =~= was.union(all.take(0).to_set()));
    while i < hashes.len()
        invariant
            i <= hashes@.len(),
            all == digest_views(hashes@),
            out@.dom() == was.union(all.take(i as int).to_set()),
        decreases hashes@.len() - i,
    {
        let ghost now = out@.dom();
        let ghost before = all.take(i as int);
        let ghost after = all.take(i + 1);
        out.insert(hashes[i], ());
        proof {
            assert(after =~= before.push(all[i as int]));
            assert forall|h: Seq<u8>| after.to_set().contains(h) <==> before.to_set().contains(h)
                || h == all[i as int] by {
                assert(after[i as int] == all[i as int]);
                if before.contains(h) {
                    let k = before.index_of(h);
                    assert(after[k] == h);
                }
                if after.contains(h) && h != all[i as int] {
                    let k = after.index_of(h);
                    assert(before[k] == h);
                }
            }
            assert(out@.dom() =~= now.insert(all[i as int]));
            assert(out@.dom() =~= was.union(after.to_set()));
        }
        i = i + 1;
    }
    assert(all.take(all.len() as int) =~= all);
}

impl DiskStore {
    /// What is wrong with a redirect, if something is.
    fn redirect_problem(&self, hash: &Digest, group: &Digest, index: u32) -> (r: Option<String>)
        ensures
            match redirect_fault(self@.objects, hash@, group@, index) {
                Some(t) => r matches Some(x) && x@ == t,
                None => r is None,
            },
    {
        match self.get_object(group) {
            Ok(Some(StoredObject::Group(members))) => {
                let derived = member_hash(group, index, members.len() as u32);
                assert(crate::wire::contents(members@).len() == members@.len());
                if derived.same(hash) {
                    None
                } else {
                    let mut text = owned("redirect derives ");
                    push_text(&mut text, derived.to_hex().as_str());
                    push_text(&mut text, ", not its own path");
                    Some(text)
                }
            },
            Ok(_) => {
                let mut text = owned("redirect target ");
                push_text(&mut text, group.to_hex().as_str());
                push_text(&mut text, " is not a group");
                Some(text)
            },
            Err(e) => Some(e.message()),
        }
    }

    /// Check the object under a hash.
    fn verify_object(
        &self,
        hash: &Digest,
        valid: usize,
        corrupt: &mut Vec<(Digest, String)>,
        referenced: &mut OrdMap<Digest, ()>,
    ) -> (r: usize)
        ensures
            ({
                let c = Checked {
                    valid,
                    corrupt: corrupt_view(old(corrupt)@),
                    referenced: old(referenced)@.dom(),
                };
                let d = check_object(self@.objects, c, hash@);
                &&& r == d.valid
                &&& corrupt_view(final(corrupt)@) == d.corrupt
                &&& final(referenced)@.dom() == d.referenced
            }),
    {
        match self.get_object(hash) {
            Err(e) => {
                note_corrupt(corrupt, hash, e.message());
                valid
            },
            Ok(None) => valid,
            Ok(Some(StoredObject::Redirect(t))) => match self.redirect_problem(
                hash,
                &t.group,
                t.index,
            ) {
                Some(text) => {
                    note_corrupt(corrupt, hash, text);
                    valid
                },
                None => valid.wrapping_add(1),
            },
            Ok(Some(object)) => {
                match object.materialize() {
                    Ok(fs) => {
                        let mut refs: Vec<Digest> = Vec::new();
                        push_targets(&mut refs, &fs);
                        assert(digest_views(refs@) =~= targets(function_pairs(fs@)));
                        note_hashes(referenced, &refs);
                    },
                    Err(e) => {
                        note_corrupt(corrupt, hash, e.message());
                    },
                }
                valid.wrapping_add(1)
            },
        }
    }

    /// Note the pre-link forms that manifests refer to.
    fn note_prelinks(&self, roots: &Vec<(String, Digest)>, out: &mut OrdMap<Digest, ()>)
        ensures
            final(out)@.dom() == old(out)@.dom().union(
                wanted_prelinks(self@.manifests, pair_hashes(roots@)),
            ),
    {
        let ghost was = out@.dom();
        let ghost hashes = pair_hashes(roots@);
        let mut i: usize = 0;
        assert(hashes.take(0) =~= seq![]);
        assert(out@.dom() =~= was.union(wanted_prelinks(self@.manifests, hashes.take(0))));
        while i < roots.len()
            invariant
                i <= roots@.len(),
                hashes == pair_hashes(roots@),
                out@.dom() == was.union(wanted_prelinks(self@.manifests, hashes.take(i as int))),
            decreases roots@.len() - i,
        {
            assert(hashes.take(i + 1).drop_last() =~= hashes.take(i as int));
            assert(hashes.take(i + 1).last() == roots@[i as int].1@);
            if let Some(m) = self.manifest_or_miss(&roots[i].1) {
                let refs = m.referenced_prelink();
                assert(digest_views(refs@) =~= contents(refs@));
                note_hashes(out, &refs);
            }
            i = i + 1;
            assert(out@.dom() =~= was.union(
                wanted_prelinks(self@.manifests, hashes.take(i as int)),
            ));
        }
        assert(hashes.take(hashes.len() as int) =~= hashes);
    }

    /// Check everything in the store: that each object is intact and lies where
    /// it should, that what functions refer to is there, that the manifests and
    /// the pre-link forms are intact, that the forms to which current and tagged
    /// manifests refer are there, and that pointers and tags name manifests that
    /// are intact.
    pub fn verify(&self) -> (r: VerifyReport)
        ensures
            exists|listing: Listing| listing.of(self@) && #[trigger] reports(self@, listing, r),
    {
        let keys = self.all_hashes();
        let mut valid: usize = 0;
        let mut corrupt: Vec<(Digest, String)> = Vec::new();
        let mut referenced: OrdMap<Digest, ()> = OrdMap::new();
        let mut i: usize = 0;
        let ghost objects = self@.objects;
        let ghost manifests = self@.manifests;
        proof {
            assert(keys@.take(0) =~= seq![]);
            assert(corrupt_view(corrupt@) =~= seq![]);
            assert(referenced@.dom() =~= Set::empty());
        }
        while i < keys.len()
            invariant
                i <= keys@.len(),
                objects == self@.objects,
                valid == check_objects(objects, keys@.take(i as int)).valid,
                corrupt_view(corrupt@) == check_objects(objects, keys@.take(i as int)).corrupt,
                referenced@.dom() == check_objects(objects, keys@.take(i as int)).referenced,
            decreases keys@.len() - i,
        {
            assert(keys@.take(i + 1).drop_last() =~= keys@.take(i as int));
            assert(keys@.take(i + 1).last() == keys@[i as int]);
            valid = self.verify_object(&keys[i], valid, &mut corrupt, &mut referenced);
            i = i + 1;
        }
        assert(keys@.take(keys@.len() as int) =~= keys@);
        let mut absent: OrdMap<Digest, ()> = OrdMap::new();
        note_absent(&mut absent, &referenced, &self.objects);
        let metas = self.all_manifest_hashes();
        let ghost c = check_objects(objects, keys@);
        let mut k: usize = 0;
        assert(metas@.take(0) =~= seq![]);
        while k < metas.len()
            invariant
                k <= metas@.len(),
                manifests == self@.manifests,
                valid == check_manifests(manifests, c, metas@.take(k as int)).valid,
                corrupt_view(corrupt@) == check_manifests(
                    manifests,
                    c,
                    metas@.take(k as int),
                ).corrupt,
            decreases metas@.len() - k,
        {
            assert(metas@.take(k + 1).drop_last() =~= metas@.take(k as int));
            assert(metas@.take(k + 1).last() == metas@[k as int]);
            match self.load_manifest(&metas[k]) {
                Ok(Some(_)) => {
                    valid = valid.wrapping_add(1);
                },
                Ok(None) => {},
                Err(e) => {
                    note_corrupt(&mut corrupt, &metas[k], e.message());
                },
            }
            k = k + 1;
        }
        assert(metas@.take(metas@.len() as int) =~= metas@);
        let blobs = self.all_prelink_hashes();
        let ghost prelinks = self@.prelinks;
        let ghost d = check_manifests(manifests, c, metas@);
        let mut b: usize = 0;
        assert(blobs@.take(0) =~= seq![]);
        while b < blobs.len()
            invariant
                b <= blobs@.len(),
                prelinks == self@.prelinks,
                valid == check_prelinks(prelinks, d, blobs@.take(b as int)).valid,
                corrupt_view(corrupt@) == check_prelinks(prelinks, d, blobs@.take(b as int)).corrupt,
            decreases blobs@.len() - b,
        {
            assert(blobs@.take(b + 1).drop_last() =~= blobs@.take(b as int));
            assert(blobs@.take(b + 1).last() == blobs@[b as int]);
            if let Some(text) = self.prelink_problem(&blobs[b]) {
                note_corrupt(&mut corrupt, &blobs[b], text);
            }
            b = b + 1;
        }
        assert(blobs@.take(blobs@.len() as int) =~= blobs@);
        let pointers = self.snapshot_pointers();
        let tags = self.list_tags();
        let mut wanted: OrdMap<Digest, ()> = OrdMap::new();
        self.note_prelinks(&pointers, &mut wanted);
        self.note_prelinks(&tags, &mut wanted);
        note_absent(&mut absent, &wanted, &self.prelinks);
        let ghost listing = Listing {
            keys: keys@,
            metas: metas@,
            blobs: blobs@,
            pointers: pointers@,
            tags: tags@,
        };
        proof {
            assert(objects.dom() =~= self.objects@.dom());
            assert(prelinks.dom() =~= self.prelinks@.dom());
            assert(wanted@.dom() =~= listing.wanted(self@));
            assert(absent@.dom() =~= c.referenced.difference(objects.dom()).union(
                listing.wanted(self@).difference(prelinks.dom()),
            ));
        }
        let dangling = keys_of(&absent);
        let report = VerifyReport {
            valid,
            corrupt,
            dangling,
            dangling_snapshot: self.snapshot_health(),
            bad_tags: self.tag_health(),
        };
        assert(listing.of(self@));
        assert(reports(self@, listing, report));
        report
    }
}

/// What is in a store, in order.
pub struct Listing {
    /// The hashes of the objects.
    pub keys: Seq<Digest>,
    /// The hashes of the manifests.
    pub metas: Seq<Digest>,
    /// The hashes of the pre-link forms.
    pub blobs: Seq<Digest>,
    /// The packages with the hashes that their pointers name.
    pub pointers: Seq<(String, Digest)>,
    /// The tags with the hashes that they name.
    pub tags: Seq<(String, Digest)>,
}

impl Listing {
    /// Whether it lists a store.
    pub open spec fn of(self, v: StoreView) -> bool {
        &&& lists_keys(self.keys, v.objects.dom())
        &&& lists_keys(self.metas, v.manifests.dom())
        &&& lists_keys(self.blobs, v.prelinks.dom())
        &&& lists_pointers(v.pointers, self.pointers)
        &&& lists_tags(v.tags, self.tags)
    }

    /// The pre-link forms that current and tagged manifests refer to.
    pub open spec fn wanted(self, v: StoreView) -> Set<Seq<u8>> {
        wanted_prelinks(v.manifests, pair_hashes(self.pointers)).union(
            wanted_prelinks(v.manifests, pair_hashes(self.tags)),
        )
    }
}

/// Whether a report says what is in a store.
pub open spec fn reports(v: StoreView, l: Listing, r: VerifyReport) -> bool {
    let objects = check_objects(v.objects, l.keys);
    let manifests = check_manifests(v.manifests, objects, l.metas);
    let all = check_prelinks(v.prelinks, manifests, l.blobs);
    &&& r.valid == all.valid
    &&& corrupt_view(r.corrupt@) == all.corrupt
    &&& lists_keys(
        r.dangling@,
        objects.referenced.difference(v.objects.dom()).union(
            l.wanted(v).difference(v.prelinks.dom()),
        ),
    )
    &&& health_of(v.manifests, v.pointers, r.dangling_snapshot)
    &&& lists_bad_tags(v.manifests, v.tags, r.bad_tags@)
}

// ── what a clean report means ───────────────────────────────────────────────

/// Whether an object is intact, lies where it should, and refers only to what is
/// there.
pub open spec fn sound_object(objects: Map<Seq<u8>, Seq<u8>>, h: Seq<u8>) -> bool {
    match object_at(objects, h) {
        Ok(Some(ObjectView::Redirect(t))) => redirect_fault(objects, h, t.group, t.index) is None,
        Ok(Some(o)) => match materialized(o) {
            Ok(fs) => forall|t: Seq<u8>| #[trigger]
                targets(fs).contains(t) ==> objects.contains_key(t),
            Err(_) => false,
        },
        _ => false,
    }
}

proof fn lemma_manifests_keep_faults(
    manifests: Map<Seq<u8>, Seq<u8>>,
    c: Checked,
    keys: Seq<Digest>,
)
    ensures
        check_manifests(manifests, c, keys).corrupt.len() == 0 ==> c.corrupt.len() == 0 && forall|
            i: int,
        |
            0 <= i < keys.len() ==> manifest_at(manifests, (#[trigger] keys[i])@) is Ok,
    decreases keys.len(),
{
    if keys.len() > 0 {
        let rest = keys.drop_last();
        lemma_manifests_keep_faults(manifests, c, rest);
        if check_manifests(manifests, c, keys).corrupt.len() == 0 {
            assert forall|i: int| 0 <= i < keys.len() implies manifest_at(
                manifests,
                (#[trigger] keys[i])@,
            ) is Ok by {
                if i < rest.len() {
                    assert(rest[i] == keys[i]);
                }
            }
        }
    }
}

proof fn lemma_objects_keep_faults(objects: Map<Seq<u8>, Seq<u8>>, keys: Seq<Digest>, i: int)
    requires
        0 <= i < keys.len(),
        check_objects(objects, keys).corrupt.len() == 0,
        objects.contains_key(keys[i]@),
    ensures
        match object_at(objects, keys[i]@) {
            Ok(Some(ObjectView::Redirect(t))) => redirect_fault(
                objects,
                keys[i]@,
                t.group,
                t.index,
            ) is None,
            Ok(Some(o)) => match materialized(o) {
                Ok(fs) => forall|t: Seq<u8>| #[trigger]
                    targets(fs).contains(t) ==> check_objects(objects, keys).referenced.contains(t),
                Err(_) => false,
            },
            _ => false,
        },
    decreases keys.len(),
{
    let rest = keys.drop_last();
    if i < rest.len() {
        assert(rest[i] == keys[i]);
        assert(check_objects(objects, rest).corrupt.len() == 0);
        lemma_objects_keep_faults(objects, rest, i);
    } else {
        let h = keys[i]@;
        match object_at(objects, h) {
            Ok(Some(ObjectView::Redirect(_))) => {},
            Ok(Some(o)) => {
                if let Ok(fs) = materialized(o) {
                    assert forall|t: Seq<u8>| #[trigger] targets(fs).contains(
                        t,
                    ) implies check_objects(objects, keys).referenced.contains(t) by {
                        assert(targets(fs).to_set().contains(t));
                    }
                }
            },
            _ => {},
        }
    }
}

proof fn lemma_prelinks_keep_faults(prelinks: Map<Seq<u8>, Seq<u8>>, c: Checked, keys: Seq<Digest>)
    ensures
        check_prelinks(prelinks, c, keys).corrupt.len() == 0 ==> c.corrupt.len() == 0 && forall|
            i: int,
        |
            0 <= i < keys.len() ==> blob_fault(prelinks, (#[trigger] keys[i])@) is None,
    decreases keys.len(),
{
    if keys.len() > 0 {
        let rest = keys.drop_last();
        lemma_prelinks_keep_faults(prelinks, c, rest);
        if check_prelinks(prelinks, c, keys).corrupt.len() == 0 {
            assert forall|i: int| 0 <= i < keys.len() implies blob_fault(
                prelinks,
                (#[trigger] keys[i])@,
            ) is None by {
                if i < rest.len() {
                    assert(rest[i] == keys[i]);
                }
            }
        }
    }
}

/// In a store with a clean report every object is intact, lies where it should
/// and refers only to what is there; every manifest and every pre-link form is
/// intact; every form to which a current or tagged manifest refers is there; and
/// every pointer and every tag names a manifest that is there.
pub proof fn clean_store_is_sound(v: StoreView, l: Listing, r: VerifyReport)
    requires
        l.of(v),
        reports(v, l, r),
        r.clean(),
    ensures
        forall|h: Seq<u8>| #[trigger] v.objects.contains_key(h) ==> sound_object(v.objects, h),
        forall|h: Seq<u8>| #[trigger]
            v.manifests.contains_key(h) ==> manifest_at(v.manifests, h) is Ok,
        forall|p: Seq<char>| #[trigger]
            v.pointers.contains_key(p) ==> crate::disk_store::manifests::pointer_fault(
                v.manifests,
                p,
                v.pointers[p],
            ) is None,
        forall|n: Seq<char>| #[trigger]
            v.tags.contains_key(n) ==> tag_fault(v.manifests, n, v.tags[n]) is None,
        forall|h: Seq<u8>| #[trigger]
            v.prelinks.contains_key(h) ==> blob_fault(v.prelinks, h) is None,
        forall|h: Seq<u8>| #[trigger] l.wanted(v).contains(h) ==> v.prelinks.contains_key(h),
{
    let keys = l.keys;
    let metas = l.metas;
    let objects = check_objects(v.objects, keys);
    let manifests = check_manifests(v.manifests, objects, metas);
    let gone = objects.referenced.difference(v.objects.dom()).union(
        l.wanted(v).difference(v.prelinks.dom()),
    );
    assert(corrupt_view(r.corrupt@).len() == 0);
    lemma_prelinks_keep_faults(v.prelinks, manifests, l.blobs);
    lemma_manifests_keep_faults(v.manifests, objects, metas);
    assert forall|h: Seq<u8>| !(#[trigger] gone.contains(h)) by {
        if gone.contains(h) {
            let k = choose|k: int| 0 <= k < r.dangling@.len() && (#[trigger] r.dangling@[k])@ == h;
        }
    }
    assert forall|h: Seq<u8>| #[trigger] l.wanted(v).contains(h) implies v.prelinks.contains_key(
        h,
    ) by {
        assert(!gone.contains(h));
    }
    assert forall|h: Seq<u8>| #[trigger] v.prelinks.contains_key(h) implies blob_fault(
        v.prelinks,
        h,
    ) is None by {
        assert(v.prelinks.dom().contains(h));
        let i = choose|i: int| 0 <= i < l.blobs.len() && (#[trigger] l.blobs[i])@ == h;
    }
    assert forall|h: Seq<u8>| #[trigger] v.objects.contains_key(h) implies sound_object(
        v.objects,
        h,
    ) by {
        assert(v.objects.dom().contains(h));
        let i = choose|i: int| 0 <= i < keys.len() && (#[trigger] keys[i])@ == h;
        lemma_objects_keep_faults(v.objects, keys, i);
        match object_at(v.objects, h) {
            Ok(Some(ObjectView::Redirect(_))) => {},
            Ok(Some(o)) => {
                let fs = materialized(o)->Ok_0;
                assert forall|t: Seq<u8>| #[trigger] targets(fs).contains(
                    t,
                ) implies v.objects.contains_key(t) by {
                    assert(!gone.contains(t));
                }
            },
            _ => {},
        }
    }
    assert forall|h: Seq<u8>| #[trigger] v.manifests.contains_key(h) implies manifest_at(
        v.manifests,
        h,
    ) is Ok by {
        assert(v.manifests.dom().contains(h));
        let i = choose|i: int| 0 <= i < metas.len() && (#[trigger] metas[i])@ == h;
    }
    assert forall|n: Seq<char>| #[trigger] v.tags.contains_key(n) implies tag_fault(
        v.manifests,
        n,
        v.tags[n],
    ) is None by {
        let listed = crate::disk_store::tags::first_texts(r.bad_tags@);
        if tag_fault(v.manifests, n, v.tags[n]) is Some {
            assert(bad_tags(v.manifests, v.tags).contains(n));
            assert(listed.contains(n));
        }
    }
}

} // verus!
