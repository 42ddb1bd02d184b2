//! What collecting a store does where checking it has found nothing.
//!
//! A clean report means that every redirect leads from a member to its group. So
//! marking finds everything that is reachable, and a collection leaves that and
//! nothing else.

use vstd::prelude::*;

use crate::bytecode::FunctionView;
use crate::digest::{blake3_hash, Digest};
use crate::disk_store::closure::targets;
use crate::disk_store::collection::{
    collection_leaves_what_is_reachable, groups_in_order, lemma_reached_on, links, reachable_from,
};
use crate::disk_store::error::StoreFault;
use crate::disk_store::gc::{
    collected, functions_behind, gc_roots, hashes_of, mark_run, mark_start, mark_step, needs,
    redirects_in_order, tag_roots, Marking,
};
use crate::disk_store::manifests::{manifest_at, pair_hashes};
use crate::disk_store::objects::{object_at, StoreView};
use crate::disk_store::verify::{
    clean_store_is_sound, redirect_fault, reports, sound_object, Listing, VerifyReport,
};
use crate::object::{
    derived_hash, loaded_members, materialized, member_hash_of, object_reads_only_encodings,
    sibling_hashes, MemberView, ObjectView,
};

verus! {

broadcast use {vstd::string::group_string_axioms, vstd::array::group_array_axioms};

// ── groups ──────────────────────────────────────────────────────────────────

/// Whether the hashes of members collide with no others: members of two groups
/// have two hashes, and no object has the hash of a member.
pub open spec fn members_apart(objects: Map<Seq<u8>, Seq<u8>>) -> bool {
    &&& forall|g: Seq<u8>, i: u32, h: Seq<u8>, j: u32|
        #![trigger derived_hash(g, i), derived_hash(h, j)]
        objects.contains_key(g) && objects.contains_key(h) && derived_hash(g, i) == derived_hash(
            h,
            j,
        ) ==> g == h
    &&& forall|g: Seq<u8>, i: u32, h: Seq<u8>|
        #![trigger derived_hash(g, i), objects.contains_key(h)]
        objects.contains_key(g) && objects.contains_key(h) ==> blake3_hash(objects[h])
            != derived_hash(g, i)
}

/// Whether every object is intact, lies where it should, and refers only to what is
/// there.
spec fn all_sound(objects: Map<Seq<u8>, Seq<u8>>) -> bool {
    forall|h: Seq<u8>| #[trigger] objects.contains_key(h) ==> sound_object(objects, h)
}

proof fn lemma_loaded_hashes(ms: Seq<MemberView>, siblings: Seq<Seq<u8>>, k: int)
    requires
        0 <= k <= siblings.len(),
    ensures
        loaded_members(ms, siblings, k) matches Ok(fs) ==> fs.len() == k && forall|i: int|
            0 <= i < k ==> (#[trigger] fs[i]).0 == siblings[i],
    decreases k,
{
    if k > 0 {
        lemma_loaded_hashes(ms, siblings, k - 1);
    }
}

/// The functions of a group lie under its own hash or under hashes derived from it.
proof fn lemma_group_member(objects: Map<Seq<u8>, Seq<u8>>, g: Seq<u8>, m: Seq<u8>)
    requires
        object_at(objects, g) matches Ok(Some(ObjectView::Group(_))),
        hashes_of(functions_behind(objects, g)).contains(m),
    ensures
        m == g || exists|i: u32| m == #[trigger] derived_hash(g, i),
{
    let o = object_at(objects, g)->Ok_0->0;
    object_reads_only_encodings(objects[g]);
    let ms = o->Group_0;
    let siblings = sibling_hashes(g, ms.len());
    lemma_loaded_hashes(ms, siblings, ms.len() as int);
    let fs = functions_behind(objects, g);
    let k = choose|k: int| 0 <= k < fs.len() && (#[trigger] fs[k]).0 == m;
    assert(m == siblings[k]);
    assert(m == member_hash_of(g, k as u32, ms.len() as u32));
    if ms.len() as u32 != 1 {
        assert(m == derived_hash(g, k as u32));
    }
}

/// What lies under the hash of a member leads to its group.
proof fn lemma_derived(objects: Map<Seq<u8>, Seq<u8>>, g: Seq<u8>, i: u32)
    requires
        all_sound(objects),
        members_apart(objects),
        objects.contains_key(g),
    ensures
        ({
            let m = derived_hash(g, i);
            match object_at(objects, m) {
                Ok(Some(ObjectView::Redirect(t))) => t.group == g,
                Ok(Some(_)) => false,
                _ => true,
            }
        }),
{
    let m = derived_hash(g, i);
    if objects.contains_key(m) {
        assert(sound_object(objects, m));
        assert(blake3_hash(objects[m]) != derived_hash(g, i));
        if let Ok(Some(ObjectView::Redirect(t))) = object_at(objects, m) {
            let ms = object_at(objects, t.group)->Ok_0->0->Group_0;
            assert(redirect_fault(objects, m, t.group, t.index) is None);
            assert(m == member_hash_of(t.group, t.index, ms.len() as u32));
            if ms.len() as u32 != 1 {
                assert(m == derived_hash(t.group, t.index));
            }
        }
    }
}

/// A function that a hash stands for lies under the hash itself, under one that
/// stands for the same functions, or under one at which there is no object.
proof fn lemma_member(objects: Map<Seq<u8>, Seq<u8>>, h: Seq<u8>, m: Seq<u8>)
    requires
        all_sound(objects),
        members_apart(objects),
        hashes_of(functions_behind(objects, h)).contains(m),
    ensures
        functions_behind(objects, m) == functions_behind(objects, h) || functions_behind(
            objects,
            m,
        ) == Seq::<(Seq<u8>, FunctionView)>::empty(),
        object_at(objects, m) matches Ok(Some(ObjectView::Redirect(r))) ==> r.group == h || (
        object_at(objects, h) matches Ok(Some(ObjectView::Redirect(s))) && s.group == r.group),
{
    let fs = functions_behind(objects, h);
    let k = choose|k: int| 0 <= k < fs.len() && (#[trigger] fs[k]).0 == m;
    assert(objects.contains_key(h));
    assert(sound_object(objects, h));
    match object_at(objects, h) {
        Ok(Some(ObjectView::Plain(_))) => {
            object_reads_only_encodings(objects[h]);
            assert(m == h);
        },
        Ok(Some(ObjectView::Group(_))) => {
            lemma_group_member(objects, h, m);
            if m != h {
                let i = choose|i: u32| m == #[trigger] derived_hash(h, i);
                lemma_derived(objects, h, i);
            }
        },
        Ok(Some(ObjectView::Redirect(t))) => {
            let g = t.group;
            assert(redirect_fault(objects, h, t.group, t.index) is None);
            assert(functions_behind(objects, g) == fs);
            lemma_group_member(objects, g, m);
            if m != g {
                let i = choose|i: u32| m == #[trigger] derived_hash(g, i);
                lemma_derived(objects, g, i);
            }
        },
        _ => {},
    }
}

/// In a store with a clean report groups are in order, where the hashes of members
/// collide with no others.
pub proof fn clean_groups_are_in_order(v: StoreView, l: Listing, r: VerifyReport)
    requires
        l.of(v),
        reports(v, l, r),
        r.clean(),
        members_apart(v.objects),
    ensures
        groups_in_order(v.objects),
        redirects_in_order(v.objects),
{
    clean_store_is_sound(v, l, r);
    let objects = v.objects;
    assert forall|h: Seq<u8>, m: Seq<u8>, t: Seq<u8>|
        #![trigger functions_behind(objects, h), links(objects, m, t)]
        hashes_of(functions_behind(objects, h)).contains(m) && links(objects, m, t) implies t == h
        || links(objects, h, t) by {
        lemma_member(objects, h, m);
    }
    assert forall|h: Seq<u8>, i: int, t: Seq<u8>|
        0 <= i < functions_behind(objects, h).len() && #[trigger] needs(
            objects,
            functions_behind(objects, h)[i].0,
            t,
        ) implies needs(objects, h, t) by {
        let m = functions_behind(objects, h)[i].0;
        assert(hashes_of(functions_behind(objects, h)).contains(m));
        lemma_member(objects, h, m);
    }
    assert forall|h: Seq<u8>|
        match #[trigger] object_at(objects, h) {
            Ok(Some(ObjectView::Redirect(t))) => match object_at(objects, t.group) {
                Ok(Some(ObjectView::Redirect(_))) => false,
                _ => true,
            },
            _ => true,
        } by {
        if objects.contains_key(h) {
            assert(sound_object(objects, h));
        }
    }
}

// ── collecting ──────────────────────────────────────────────────────────────

proof fn lemma_marking_goes_through(objects: Map<Seq<u8>, Seq<u8>>, s: Marking, steps: nat)
    requires
        forall|h: Seq<u8>| #[trigger] object_at(objects, h) is Ok,
    ensures
        mark_run(objects, s, steps) matches Some(r) ==> r is Ok,
    decreases steps,
{
    if s.pending.len() > 0 && steps > 0 {
        if let Ok(next) = mark_step(objects, s) {
            lemma_marking_goes_through(objects, next, (steps - 1) as nat);
        }
    }
}

proof fn lemma_tags_are_read(manifests: Map<Seq<u8>, Seq<u8>>, hashes: Seq<Seq<u8>>)
    requires
        forall|h: Seq<u8>| #[trigger] manifest_at(manifests, h) is Ok,
    ensures
        tag_roots(manifests, hashes) is Ok,
    decreases hashes.len(),
{
    if hashes.len() > 0 {
        lemma_tags_are_read(manifests, hashes.drop_last());
    }
}

/// A collection of a store with a clean report succeeds. It leaves an object if and
/// only if it was there and is reachable from what is to be kept, and a manifest if
/// and only if it was there and is current or tagged; what is left is as it was.
pub proof fn collecting_a_clean_store_is_exact(
    v: StoreView,
    l: Listing,
    r: VerifyReport,
    extra: Seq<Seq<u8>>,
    names: Seq<(String, Digest)>,
    pointers: Seq<(String, Digest)>,
    tags: Seq<(String, Digest)>,
    steps: nat,
    c: Result<usize, StoreFault>,
    w: StoreView,
)
    requires
        l.of(v),
        reports(v, l, r),
        r.clean(),
        members_apart(v.objects),
        collected(v, extra, names, pointers, tags, steps, c, w),
    ensures
        c is Ok,
        gc_roots(v, extra, names, pointers, tags) matches Ok((roots, _)) && forall|h: Seq<u8>|
            (#[trigger] w.objects.contains_key(h) <==> v.objects.contains_key(h) && reachable_from(
                v.objects,
                roots,
                h,
            )) && (w.objects.contains_key(h) ==> w.objects[h] == v.objects[h]),
        forall|h: Seq<u8>|
            (#[trigger] w.manifests.contains_key(h) <==> v.manifests.contains_key(h) && (
            pair_hashes(pointers).contains(h) || pair_hashes(tags).contains(h))) && (
            w.manifests.contains_key(h) ==> w.manifests[h] == v.manifests[h]),
{
    clean_store_is_sound(v, l, r);
    clean_groups_are_in_order(v, l, r);
    assert forall|h: Seq<u8>| #[trigger] object_at(v.objects, h) is Ok by {
        if v.objects.contains_key(h) {
            assert(sound_object(v.objects, h));
        }
    }
    assert forall|h: Seq<u8>| #[trigger] manifest_at(v.manifests, h) is Ok by {
        if v.manifests.contains_key(h) {
        }
    }
    lemma_tags_are_read(v.manifests, pair_hashes(tags));
    let (roots, keep) = gc_roots(v, extra, names, pointers, tags)->Ok_0;
    lemma_marking_goes_through(v.objects, mark_start(roots), steps);
    let n = c->Ok_0;
    assert forall|h: Seq<u8>|
        (#[trigger] w.objects.contains_key(h) <==> v.objects.contains_key(h) && reachable_from(
            v.objects,
            roots,
            h,
        )) && (w.objects.contains_key(h) ==> w.objects[h] == v.objects[h]) by {
        collection_leaves_what_is_reachable(v, extra, names, pointers, tags, steps, n, w, h);
    }
    assert forall|h: Seq<u8>|
        (#[trigger] w.manifests.contains_key(h) <==> v.manifests.contains_key(h) && (pair_hashes(
            pointers,
        ).contains(h) || pair_hashes(tags).contains(h))) && (w.manifests.contains_key(h)
            ==> w.manifests[h] == v.manifests[h]) by {
        collection_leaves_what_is_reachable(v, extra, names, pointers, tags, steps, n, w, h);
        assert(manifest_at(v.manifests, h) is Ok);
    }
}

/// The objects that a collection leaves of a store with a clean report are intact,
/// lie where they should and refer only to what is there.
pub proof fn a_collected_store_is_sound(
    v: StoreView,
    l: Listing,
    r: VerifyReport,
    extra: Seq<Seq<u8>>,
    names: Seq<(String, Digest)>,
    pointers: Seq<(String, Digest)>,
    tags: Seq<(String, Digest)>,
    steps: nat,
    c: Result<usize, StoreFault>,
    w: StoreView,
)
    requires
        l.of(v),
        reports(v, l, r),
        r.clean(),
        members_apart(v.objects),
        collected(v, extra, names, pointers, tags, steps, c, w),
    ensures
        forall|h: Seq<u8>| #[trigger] w.objects.contains_key(h) ==> sound_object(w.objects, h),
{
    clean_store_is_sound(v, l, r);
    collecting_a_clean_store_is_exact(v, l, r, extra, names, pointers, tags, steps, c, w);
    let roots = gc_roots(v, extra, names, pointers, tags)->Ok_0.0;
    assert forall|h: Seq<u8>| #[trigger] w.objects.contains_key(h) implies sound_object(
        w.objects,
        h,
    ) by {
        assert(sound_object(v.objects, h));
        assert(object_at(w.objects, h) == object_at(v.objects, h));
        match object_at(v.objects, h) {
            Ok(Some(ObjectView::Redirect(t))) => {
                assert(redirect_fault(v.objects, h, t.group, t.index) is None);
                assert(links(v.objects, h, t.group));
                lemma_reached_on(v.objects, roots, h, t.group);
                assert(w.objects.contains_key(t.group));
                assert(object_at(w.objects, t.group) == object_at(v.objects, t.group));
            },
            Ok(Some(o)) => {
                let fs = materialized(o)->Ok_0;
                assert forall|t: Seq<u8>| #[trigger] targets(fs).contains(
                    t,
                ) implies w.objects.contains_key(t) by {
                    assert(links(v.objects, h, t));
                    lemma_reached_on(v.objects, roots, h, t);
                }
            },
            _ => {},
        }
    }
}

} // verus!
