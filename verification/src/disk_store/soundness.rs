//! A sound store is reported to be clean.

use vstd::prelude::*;

use crate::digest::Digest;
use crate::disk_store::manifests::{lists_keys, manifest_at, pointer_fault};
use crate::disk_store::objects::StoreView;
use crate::disk_store::prelinks::blob_fault;
use crate::disk_store::tags::{bad_tags, first_texts, tag_fault};
use crate::disk_store::verify::{
    check_manifests, check_objects, check_prelinks, corrupt_view, reports, sound_object, Checked,
    Listing, VerifyReport,
};

verus! {

proof fn lemma_objects_pass(objects: Map<Seq<u8>, Seq<u8>>, keys: Seq<Digest>)
    requires
        forall|i: int| 0 <= i < keys.len() ==> sound_object(objects, (#[trigger] keys[i])@),
        keys.len() <= usize::MAX,
    ensures
        check_objects(objects, keys).corrupt.len() == 0,
        check_objects(objects, keys).valid == keys.len(),
        check_objects(objects, keys).referenced.subset_of(objects.dom()),
    decreases keys.len(),
{
    if keys.len() > 0 {
        let rest = keys.drop_last();
        assert forall|i: int| 0 <= i < rest.len() implies sound_object(
            objects,
            (#[trigger] rest[i])@,
        ) by {
            assert(keys[i] == rest[i]);
        }
        lemma_objects_pass(objects, rest);
        assert(sound_object(objects, keys[keys.len() - 1]@));
    }
}

proof fn lemma_manifests_pass(manifests: Map<Seq<u8>, Seq<u8>>, c: Checked, keys: Seq<Digest>)
    requires
        forall|i: int|
            0 <= i < keys.len() ==> (manifest_at(manifests, (#[trigger] keys[i])@) matches Ok(
                Some(_),
            )),
        c.valid + keys.len() <= usize::MAX,
    ensures
        check_manifests(manifests, c, keys).corrupt == c.corrupt,
        check_manifests(manifests, c, keys).valid == c.valid + keys.len(),
    decreases keys.len(),
{
    if keys.len() > 0 {
        let rest = keys.drop_last();
        assert forall|i: int| 0 <= i < rest.len() implies (manifest_at(
            manifests,
            (#[trigger] rest[i])@,
        ) matches Ok(Some(_))) by {
            assert(keys[i] == rest[i]);
        }
        lemma_manifests_pass(manifests, c, rest);
        assert(manifest_at(manifests, keys[keys.len() - 1]@) matches Ok(Some(_)));
    }
}

proof fn lemma_prelinks_pass(prelinks: Map<Seq<u8>, Seq<u8>>, c: Checked, keys: Seq<Digest>)
    requires
        forall|i: int| 0 <= i < keys.len() ==> blob_fault(prelinks, (#[trigger] keys[i])@) is None,
    ensures
        check_prelinks(prelinks, c, keys) == c,
    decreases keys.len(),
{
    if keys.len() > 0 {
        let rest = keys.drop_last();
        assert forall|i: int| 0 <= i < rest.len() implies blob_fault(
            prelinks,
            (#[trigger] rest[i])@,
        ) is None by {
            assert(keys[i] == rest[i]);
        }
        lemma_prelinks_pass(prelinks, c, rest);
        assert(blob_fault(prelinks, keys[keys.len() - 1]@) is None);
    }
}

proof fn lemma_listed(keys: Seq<Digest>, set: Set<Seq<u8>>, i: int)
    requires
        lists_keys(keys, set),
        0 <= i < keys.len(),
    ensures
        set.contains(keys[i]@),
{
}

/// Where every object is intact, lies where it should and refers only to what is
/// there, every manifest and every pre-link form is intact, every form to which a
/// current or tagged manifest refers is there, and every pointer and every tag names
/// a manifest that is there, nothing is reported, and every object and every manifest
/// is counted as intact.
pub proof fn a_sound_store_has_a_clean_report(v: StoreView, l: Listing, r: VerifyReport)
    requires
        l.of(v),
        reports(v, l, r),
        l.keys.len() + l.metas.len() <= usize::MAX,
        forall|h: Seq<u8>| #[trigger] v.objects.contains_key(h) ==> sound_object(v.objects, h),
        forall|h: Seq<u8>| #[trigger]
            v.manifests.contains_key(h) ==> (manifest_at(v.manifests, h) matches Ok(Some(_))),
        forall|h: Seq<u8>| #[trigger]
            v.prelinks.contains_key(h) ==> blob_fault(v.prelinks, h) is None,
        forall|p: Seq<char>| #[trigger]
            v.pointers.contains_key(p) ==> pointer_fault(v.manifests, p, v.pointers[p]) is None,
        forall|n: Seq<char>| #[trigger]
            v.tags.contains_key(n) ==> tag_fault(v.manifests, n, v.tags[n]) is None,
        forall|h: Seq<u8>| #[trigger] l.wanted(v).contains(h) ==> v.prelinks.contains_key(h),
    ensures
        r.clean(),
        r.valid == l.keys.len() + l.metas.len(),
{
    let objects = check_objects(v.objects, l.keys);
    let manifests = check_manifests(v.manifests, objects, l.metas);
    assert forall|i: int| 0 <= i < l.keys.len() implies sound_object(
        v.objects,
        (#[trigger] l.keys[i])@,
    ) by {
        lemma_listed(l.keys, v.objects.dom(), i);
        assert(v.objects.contains_key(l.keys[i]@));
    }
    lemma_objects_pass(v.objects, l.keys);
    assert forall|i: int| 0 <= i < l.metas.len() implies (manifest_at(
        v.manifests,
        (#[trigger] l.metas[i])@,
    ) matches Ok(Some(_))) by {
        lemma_listed(l.metas, v.manifests.dom(), i);
        assert(v.manifests.contains_key(l.metas[i]@));
    }
    lemma_manifests_pass(v.manifests, objects, l.metas);
    assert forall|i: int| 0 <= i < l.blobs.len() implies blob_fault(
        v.prelinks,
        (#[trigger] l.blobs[i])@,
    ) is None by {
        lemma_listed(l.blobs, v.prelinks.dom(), i);
        assert(v.prelinks.contains_key(l.blobs[i]@));
    }
    lemma_prelinks_pass(v.prelinks, manifests, l.blobs);
    assert(corrupt_view(r.corrupt@).len() == 0);
    let gone = objects.referenced.difference(v.objects.dom()).union(
        l.wanted(v).difference(v.prelinks.dom()),
    );
    if r.dangling@.len() > 0 {
        lemma_listed(r.dangling@, gone, 0);
        let h = r.dangling@[0]@;
        if objects.referenced.contains(h) {
            assert(v.objects.dom().contains(h));
        }
        if l.wanted(v).contains(h) {
            assert(v.prelinks.contains_key(h));
        }
    }
    if r.bad_tags@.len() > 0 {
        let names = first_texts(r.bad_tags@);
        assert(names.contains(names[0]));
        assert(bad_tags(v.manifests, v.tags).contains(names[0]));
    }
}

} // verus!
