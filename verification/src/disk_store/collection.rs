//! What a collection leaves.
//!
//! A collection leaves the objects that are reachable from what is to be kept
//! and no others, and the manifests that are current or tagged and no others. A
//! second collection finds nothing to remove.

use vstd::prelude::*;

use crate::digest::Digest;
use crate::disk_store::closure::targets;
use crate::disk_store::error::StoreFault;
use crate::disk_store::gc::{
    collected, count_outside, functions_behind, gc_roots, hashes_of, lemma_marks_stay,
    lemma_sweeping_keeps_the_rest, lemma_sweeping_objects_keeps_manifests, lists_names, mark_run,
    mark_start, mark_step, needs, pointer_roots, sweeping_keeps_what_is_reachable, swept_manifests,
    swept_objects, tag_roots, Marking,
};
use crate::disk_store::index::hash_values;
use crate::disk_store::manifests::{
    lists_keys, lists_pointers, manifest_at, pair_hashes, pair_names, pointing, sound_manifest,
};
use crate::disk_store::objects::{object_at, StoreView};
use crate::disk_store::tags::{lists_tags, tagging};
use crate::object::ObjectView;
use crate::order::enumeration_is_unique;
use crate::ordmap::{entries_map, entry_found, has_key, increasing_keys_are_unique, Key};

verus! {

broadcast use {vstd::string::group_string_axioms, vstd::array::group_array_axioms};

// ── what is reachable ───────────────────────────────────────────────────────

/// Whether a hash leads to another: a function that it stands for refers to it or
/// lies under it, or it is the group that the hash redirects to.
pub open spec fn links(objects: Map<Seq<u8>, Seq<u8>>, h: Seq<u8>, t: Seq<u8>) -> bool {
    ||| needs(objects, h, t)
    ||| hashes_of(functions_behind(objects, h)).contains(t)
    ||| object_at(objects, h) matches Ok(Some(ObjectView::Redirect(r))) && r.group == t
}

/// Whether every hash of a path leads to the next one.
pub open spec fn linked_along(objects: Map<Seq<u8>, Seq<u8>>, path: Seq<Seq<u8>>) -> bool {
    forall|i: int| #![trigger path[i]] 0 < i < path.len() ==> links(objects, path[i - 1], path[i])
}

/// Whether a hash is reachable: a path leads to it from one to begin with.
pub open spec fn reachable_from(
    objects: Map<Seq<u8>, Seq<u8>>,
    roots: Seq<Seq<u8>>,
    h: Seq<u8>,
) -> bool {
    exists|path: Seq<Seq<u8>>|
        path.len() > 0 && roots.contains(path[0]) && #[trigger] linked_along(objects, path)
            && path.last() == h
}

/// Whether groups are in order: a member leads to nothing but what its group
/// leads to, and a redirect points at no other redirect.
pub open spec fn groups_in_order(objects: Map<Seq<u8>, Seq<u8>>) -> bool {
    &&& forall|h: Seq<u8>, m: Seq<u8>, t: Seq<u8>|
        #![trigger functions_behind(objects, h), links(objects, m, t)]
        hashes_of(functions_behind(objects, h)).contains(m) && links(objects, m, t) ==> t == h
            || links(objects, h, t)
    &&& forall|h: Seq<u8>|
        match #[trigger] object_at(objects, h) {
            Ok(Some(ObjectView::Redirect(t))) => match object_at(objects, t.group) {
                Ok(Some(ObjectView::Redirect(_))) => false,
                _ => true,
            },
            _ => true,
        }
}

pub(crate) proof fn lemma_reached_on(
    objects: Map<Seq<u8>, Seq<u8>>,
    roots: Seq<Seq<u8>>,
    h: Seq<u8>,
    t: Seq<u8>,
)
    requires
        reachable_from(objects, roots, h),
        links(objects, h, t),
    ensures
        reachable_from(objects, roots, t),
{
    let path = choose|path: Seq<Seq<u8>>|
        path.len() > 0 && roots.contains(path[0]) && #[trigger] linked_along(objects, path)
            && path.last() == h;
    let on = path.push(t);
    assert forall|i: int| #![trigger on[i]] 0 < i < on.len() implies links(
        objects,
        on[i - 1],
        on[i],
    ) by {
        if i < path.len() {
            assert(on[i] == path[i]);
        }
    }
    assert(on[0] == path[0]);
    assert(linked_along(objects, on));
}

// ── what is marked ──────────────────────────────────────────────────────────

/// Whether what is marked or to be looked at is reachable.
spec fn only_reachable(
    objects: Map<Seq<u8>, Seq<u8>>,
    roots: Seq<Seq<u8>>,
    s: Marking,
) -> bool {
    forall|t: Seq<u8>|
        #![trigger s.reachable.contains(t)]
        #![trigger s.pending.contains(t)]
        s.reachable.contains(t) || s.pending.contains(t) ==> reachable_from(objects, roots, t)
}

proof fn lemma_step_is_linked(objects: Map<Seq<u8>, Seq<u8>>, s: Marking, t: Seq<u8>)
    requires
        s.pending.len() > 0,
        mark_step(objects, s) is Ok,
        ({
            let next = mark_step(objects, s)->Ok_0;
            next.reachable.contains(t) || next.pending.contains(t)
        }),
    ensures
        s.reachable.contains(t) || s.pending.contains(t) || links(objects, s.pending.last(), t),
{
    let next = mark_step(objects, s)->Ok_0;
    let h = s.pending.last();
    let rest = s.pending.drop_last();
    let fs = functions_behind(objects, h);
    assert(s.pending[s.pending.len() - 1] == h);
    if next.pending.contains(t) {
        let i = next.pending.index_of(t);
        if i < rest.len() {
            assert(s.pending[i] == t);
        } else {
            assert(next.pending == rest + targets(fs));
            assert(targets(fs)[i - rest.len()] == t);
            assert(needs(objects, h, t));
        }
    }
}

proof fn lemma_only_reachable(
    objects: Map<Seq<u8>, Seq<u8>>,
    roots: Seq<Seq<u8>>,
    s: Marking,
    steps: nat,
    reachable: Set<Seq<u8>>,
    t: Seq<u8>,
)
    requires
        only_reachable(objects, roots, s),
        mark_run(objects, s, steps) == Some(Ok::<Set<Seq<u8>>, StoreFault>(reachable)),
        reachable.contains(t),
    ensures
        reachable_from(objects, roots, t),
    decreases steps,
{
    if s.pending.len() > 0 {
        let next = mark_step(objects, s)->Ok_0;
        let h = s.pending.last();
        assert(s.pending[s.pending.len() - 1] == h);
        assert(s.pending.contains(h));
        assert(only_reachable(objects, roots, next)) by {
            assert forall|x: Seq<u8>|
                #![trigger next.reachable.contains(x)]
                #![trigger next.pending.contains(x)]
                next.reachable.contains(x) || next.pending.contains(x) implies reachable_from(
                objects,
                roots,
                x,
            ) by {
                lemma_step_is_linked(objects, s, x);
                if !(s.reachable.contains(x) || s.pending.contains(x)) {
                    lemma_reached_on(objects, roots, h, x);
                }
            }
        }
        lemma_only_reachable(objects, roots, next, (steps - 1) as nat, reachable, t);
    }
}

/// Whether what is marked leads only to what is marked or still to be looked at.
spec fn closed_so_far(objects: Map<Seq<u8>, Seq<u8>>, s: Marking) -> bool {
    forall|h: Seq<u8>, t: Seq<u8>|
        s.reachable.contains(h) && #[trigger] links(objects, h, t) ==> s.reachable.contains(t)
            || s.pending.contains(t)
}

proof fn lemma_closed_step(objects: Map<Seq<u8>, Seq<u8>>, s: Marking)
    requires
        groups_in_order(objects),
        closed_so_far(objects, s),
        s.pending.len() > 0,
        mark_step(objects, s) is Ok,
    ensures
        closed_so_far(objects, mark_step(objects, s)->Ok_0),
{
    let next = mark_step(objects, s)->Ok_0;
    let h = s.pending.last();
    let rest = s.pending.drop_last();
    let fs = functions_behind(objects, h);
    assert forall|t: Seq<u8>| s.reachable.contains(t) || s.pending.contains(
        t,
    ) implies #[trigger] next.reachable.contains(t) || next.pending.contains(t) by {
        if s.pending.contains(t) {
            let i = s.pending.index_of(t);
            if i < rest.len() {
                assert(next.pending[i] == t);
            }
        }
    }
    if !s.reachable.contains(h) {
        assert forall|t: Seq<u8>| #[trigger] links(objects, h, t) implies next.reachable.contains(t)
            || next.pending.contains(t) by {
            if needs(objects, h, t) {
                let j = targets(fs).index_of(t);
                assert(next.pending[rest.len() + j] == t);
            }
        }
        assert forall|x: Seq<u8>, t: Seq<u8>|
            next.reachable.contains(x) && #[trigger] links(objects, x, t) implies next.reachable.contains(
            t,
        ) || next.pending.contains(t) by {
            if s.reachable.contains(x) {
                assert(next.reachable.contains(t) || next.pending.contains(t));
            } else if x == h {
            } else if hashes_of(fs).contains(x) {
                assert(t == h || links(objects, h, t));
            } else {
                assert(object_at(objects, h) is Ok);
                let target = object_at(objects, h)->Ok_0->0->Redirect_0;
                assert(x == target.group);
                assert(functions_behind(objects, x) == fs);
                assert(links(objects, h, t));
            }
        }
    }
}

proof fn lemma_closed_run(
    objects: Map<Seq<u8>, Seq<u8>>,
    s: Marking,
    steps: nat,
    reachable: Set<Seq<u8>>,
)
    requires
        groups_in_order(objects),
        closed_so_far(objects, s),
        mark_run(objects, s, steps) == Some(Ok::<Set<Seq<u8>>, StoreFault>(reachable)),
    ensures
        forall|h: Seq<u8>, t: Seq<u8>|
            reachable.contains(h) && #[trigger] links(objects, h, t) ==> reachable.contains(t),
    decreases steps,
{
    if s.pending.len() > 0 {
        lemma_closed_step(objects, s);
        lemma_closed_run(objects, mark_step(objects, s)->Ok_0, (steps - 1) as nat, reachable);
    } else {
        assert(s.reachable == reachable);
        assert forall|t: Seq<u8>| !#[trigger] s.pending.contains(t) by {}
    }
}

proof fn lemma_marked_along(
    objects: Map<Seq<u8>, Seq<u8>>,
    reachable: Set<Seq<u8>>,
    path: Seq<Seq<u8>>,
    i: int,
)
    requires
        linked_along(objects, path),
        0 <= i < path.len(),
        reachable.contains(path[0]),
        forall|h: Seq<u8>, t: Seq<u8>|
            reachable.contains(h) && #[trigger] links(objects, h, t) ==> reachable.contains(t),
    ensures
        reachable.contains(path[i]),
    decreases i,
{
    if i > 0 {
        lemma_marked_along(objects, reachable, path, i - 1);
        assert(links(objects, path[i - 1], path[i]));
    }
}

/// Nothing is marked but what is reachable; and in a store whose groups are in
/// order everything that is reachable is marked.
pub proof fn marking_is_exact(
    objects: Map<Seq<u8>, Seq<u8>>,
    roots: Seq<Seq<u8>>,
    steps: nat,
    reachable: Set<Seq<u8>>,
    h: Seq<u8>,
)
    requires
        mark_run(objects, mark_start(roots), steps) == Some(
            Ok::<Set<Seq<u8>>, StoreFault>(reachable),
        ),
    ensures
        reachable.contains(h) ==> reachable_from(objects, roots, h),
        groups_in_order(objects) ==> (reachable.contains(h) <==> reachable_from(objects, roots, h)),
{
    let s = mark_start(roots);
    if reachable.contains(h) {
        assert forall|t: Seq<u8>| #[trigger] s.pending.contains(t) implies reachable_from(
            objects,
            roots,
            t,
        ) by {
            let path = seq![t];
            assert(linked_along(objects, path));
            assert(path.last() == t);
        }
        lemma_only_reachable(objects, roots, s, steps, reachable, h);
    }
    if groups_in_order(objects) && reachable_from(objects, roots, h) {
        let path = choose|path: Seq<Seq<u8>>|
            path.len() > 0 && roots.contains(path[0]) && #[trigger] linked_along(objects, path)
                && path.last() == h;
        lemma_marks_stay(objects, s, steps, reachable, path[0]);
        lemma_closed_run(objects, s, steps, reachable);
        lemma_marked_along(objects, reachable, path, path.len() - 1);
    }
}

// ── what is left ────────────────────────────────────────────────────────────

proof fn lemma_manifests_left(v: StoreView, keys: Seq<Digest>, keep: Set<Seq<u8>>, h: Seq<u8>)
    ensures
        ({
            let w = swept_manifests(v, keys, keep).manifests;
            &&& w.contains_key(h) <==> v.manifests.contains_key(h) && (keep.contains(h) || !exists|
                i: int,
            |
                0 <= i < keys.len() && (#[trigger] keys[i])@ == h)
            &&& w.contains_key(h) ==> w[h] == v.manifests[h]
        }),
    decreases keys.len(),
{
    if keys.len() > 0 {
        let rest = keys.drop_last();
        lemma_manifests_left(v, rest, keep, h);
        assert(keys[keys.len() - 1] == keys.last());
        assert(forall|i: int| 0 <= i < rest.len() ==> #[trigger] rest[i] == keys[i]);
        if exists|i: int| 0 <= i < rest.len() && (#[trigger] rest[i])@ == h {
            let i = choose|i: int| 0 <= i < rest.len() && (#[trigger] rest[i])@ == h;
            assert(keys[i]@ == h);
        }
        if exists|i: int| 0 <= i < keys.len() && (#[trigger] keys[i])@ == h {
            let i = choose|i: int| 0 <= i < keys.len() && (#[trigger] keys[i])@ == h;
            if i < rest.len() {
                assert(rest[i]@ == h);
            }
        }
    }
}

proof fn lemma_pointers_kept(manifests: Map<Seq<u8>, Seq<u8>>, hashes: Seq<Seq<u8>>, h: Seq<u8>)
    ensures
        pointer_roots(manifests, hashes).1.contains(h) <==> hashes.contains(h) && sound_manifest(
            manifests,
            h,
        ) is Some,
    decreases hashes.len(),
{
    if hashes.len() > 0 {
        let rest = hashes.drop_last();
        lemma_pointers_kept(manifests, rest, h);
        assert(hashes[hashes.len() - 1] == hashes.last());
        if rest.contains(h) {
            assert(hashes[rest.index_of(h)] == h);
        }
        if hashes.contains(h) && h != hashes.last() {
            assert(rest[hashes.index_of(h)] == h);
        }
    }
}

proof fn lemma_tags_kept(manifests: Map<Seq<u8>, Seq<u8>>, hashes: Seq<Seq<u8>>, h: Seq<u8>)
    requires
        tag_roots(manifests, hashes) is Ok,
    ensures
        tag_roots(manifests, hashes)->Ok_0.1.contains(h) <==> hashes.contains(h) && sound_manifest(
            manifests,
            h,
        ) is Some,
        hashes.contains(h) ==> manifest_at(manifests, h) is Ok,
    decreases hashes.len(),
{
    if hashes.len() > 0 {
        let rest = hashes.drop_last();
        lemma_tags_kept(manifests, rest, h);
        assert(hashes[hashes.len() - 1] == hashes.last());
        if rest.contains(h) {
            assert(hashes[rest.index_of(h)] == h);
        }
        if hashes.contains(h) && h != hashes.last() {
            assert(rest[hashes.index_of(h)] == h);
        }
    }
}

/// After a collection of a store whose groups are in order an object is left if
/// and only if it was there and is reachable from what is to be kept; and a
/// manifest is left if and only if it was there, intact, and is current or
/// tagged. What is left is as it was.
pub proof fn collection_leaves_what_is_reachable(
    v: StoreView,
    extra: Seq<Seq<u8>>,
    names: Seq<(String, Digest)>,
    pointers: Seq<(String, Digest)>,
    tags: Seq<(String, Digest)>,
    steps: nat,
    n: usize,
    w: StoreView,
    h: Seq<u8>,
)
    requires
        collected(v, extra, names, pointers, tags, steps, Ok(n), w),
    ensures
        gc_roots(v, extra, names, pointers, tags) matches Ok((roots, _)) && (
        w.objects.contains_key(h) ==> v.objects.contains_key(h) && w.objects[h] == v.objects[h]
            && reachable_from(v.objects, roots, h)) && (groups_in_order(v.objects) ==> (
        w.objects.contains_key(h) <==> v.objects.contains_key(h) && reachable_from(
            v.objects,
            roots,
            h,
        ))),
        w.manifests.contains_key(h) <==> sound_manifest(v.manifests, h) is Some && (pair_hashes(
            pointers,
        ).contains(h) || pair_hashes(tags).contains(h)),
        w.manifests.contains_key(h) ==> w.manifests[h] == v.manifests[h],
{
    let (roots, keep) = gc_roots(v, extra, names, pointers, tags)->Ok_0;
    let reachable = mark_run(v.objects, mark_start(roots), steps)->0->Ok_0;
    let (keys, metas) = choose|keys: Seq<Digest>, metas: Seq<Digest>| #[trigger]
        lists_keys(keys, v.objects.dom()) && #[trigger] lists_keys(metas, v.manifests.dom())
            && n == count_outside(count_outside(0, keys, reachable), metas, keep) && w
            == swept_manifests(swept_objects(v, keys, reachable), metas, keep);
    marking_is_exact(v.objects, roots, steps, reachable, h);
    sweeping_keeps_what_is_reachable(v, keys, metas, reachable, keep, h);
    lemma_manifests_left(swept_objects(v, keys, reachable), metas, keep, h);
    lemma_sweeping_objects_keeps_manifests(v, keys, reachable);
    lemma_pointers_kept(v.manifests, pair_hashes(pointers), h);
    lemma_tags_kept(v.manifests, pair_hashes(tags), h);
    if v.manifests.contains_key(h) {
        assert(v.manifests.dom().contains(h));
    }
}

// ── collecting twice ────────────────────────────────────────────────────────

proof fn lemma_more_steps(objects: Map<Seq<u8>, Seq<u8>>, s: Marking, a: nat, b: nat)
    requires
        a <= b,
        mark_run(objects, s, a) is Some,
    ensures
        mark_run(objects, s, b) == mark_run(objects, s, a),
    decreases a,
{
    if s.pending.len() > 0 {
        if let Ok(next) = mark_step(objects, s) {
            lemma_more_steps(objects, next, (a - 1) as nat, (b - 1) as nat);
        }
    }
}

/// Marking goes the same way where what it marks is the same.
proof fn lemma_same_marks(
    a: Map<Seq<u8>, Seq<u8>>,
    b: Map<Seq<u8>, Seq<u8>>,
    s: Marking,
    steps: nat,
    reachable: Set<Seq<u8>>,
)
    requires
        mark_run(a, s, steps) == Some(Ok::<Set<Seq<u8>>, StoreFault>(reachable)),
        forall|h: Seq<u8>| reachable.contains(h) ==> #[trigger] object_at(b, h) == object_at(a, h),
    ensures
        mark_run(b, s, steps) == mark_run(a, s, steps),
    decreases steps,
{
    if s.pending.len() > 0 {
        let next = mark_step(a, s)->Ok_0;
        let h = s.pending.last();
        assert(next.reachable.contains(h));
        lemma_marks_stay(a, next, (steps - 1) as nat, reachable, h);
        assert(object_at(b, h) == object_at(a, h));
        if !s.reachable.contains(h) {
            if let Ok(Some(ObjectView::Redirect(t))) = object_at(a, h) {
                assert(next.reachable.contains(t.group));
                lemma_marks_stay(a, next, (steps - 1) as nat, reachable, t.group);
                assert(object_at(b, t.group) == object_at(a, t.group));
            }
        }
        assert(mark_step(b, s) == mark_step(a, s));
        lemma_same_marks(a, b, next, (steps - 1) as nat, reachable);
    }
}

proof fn lemma_same_pointer_roots(
    a: Map<Seq<u8>, Seq<u8>>,
    b: Map<Seq<u8>, Seq<u8>>,
    hashes: Seq<Seq<u8>>,
)
    requires
        forall|h: Seq<u8>| #[trigger]
            hashes.contains(h) ==> sound_manifest(b, h) == sound_manifest(a, h),
    ensures
        pointer_roots(b, hashes) == pointer_roots(a, hashes),
    decreases hashes.len(),
{
    if hashes.len() > 0 {
        let rest = hashes.drop_last();
        assert forall|h: Seq<u8>| #[trigger] rest.contains(h) implies sound_manifest(b, h)
            == sound_manifest(a, h) by {
            assert(hashes[rest.index_of(h)] == h);
            assert(hashes.contains(h));
        }
        lemma_same_pointer_roots(a, b, rest);
        assert(hashes[hashes.len() - 1] == hashes.last());
        assert(hashes.contains(hashes.last()));
    }
}

proof fn lemma_same_tag_roots(
    a: Map<Seq<u8>, Seq<u8>>,
    b: Map<Seq<u8>, Seq<u8>>,
    hashes: Seq<Seq<u8>>,
)
    requires
        forall|h: Seq<u8>| #[trigger]
            hashes.contains(h) ==> manifest_at(b, h) == manifest_at(a, h),
    ensures
        tag_roots(b, hashes) == tag_roots(a, hashes),
    decreases hashes.len(),
{
    if hashes.len() > 0 {
        let rest = hashes.drop_last();
        assert forall|h: Seq<u8>| #[trigger] rest.contains(h) implies manifest_at(b, h)
            == manifest_at(a, h) by {
            assert(hashes[rest.index_of(h)] == h);
            assert(hashes.contains(h));
        }
        lemma_same_tag_roots(a, b, rest);
        assert(hashes[hashes.len() - 1] == hashes.last());
        assert(hashes.contains(hashes.last()));
    }
}

proof fn lemma_nothing_outside(v: StoreView, keys: Seq<Digest>, set: Set<Seq<u8>>)
    requires
        forall|i: int| 0 <= i < keys.len() ==> set.contains((#[trigger] keys[i])@),
    ensures
        count_outside(0, keys, set) == 0,
        swept_objects(v, keys, set) == v,
        swept_manifests(v, keys, set) == v,
    decreases keys.len(),
{
    if keys.len() > 0 {
        let rest = keys.drop_last();
        assert(forall|i: int| 0 <= i < rest.len() ==> #[trigger] rest[i] == keys[i]);
        assert(keys[keys.len() - 1] == keys.last());
        lemma_nothing_outside(v, rest, set);
    }
}

/// The bindings of a store have one listing.
proof fn lemma_one_listing(
    names: Map<Seq<char>, Seq<u8>>,
    a: Seq<(String, Digest)>,
    b: Seq<(String, Digest)>,
)
    requires
        lists_names(names, a),
        lists_names(names, b),
    ensures
        pair_hashes(a) == pair_hashes(b),
{
    assert forall|m: Seq<char>| #[trigger] has_key(a, m) == has_key(b, m) by {
        assert(hash_values(entries_map(a)).contains_key(m) == names.contains_key(m));
        assert(hash_values(entries_map(b)).contains_key(m) == names.contains_key(m));
        assert(entries_map(a).contains_key(m) == has_key(a, m));
        assert(entries_map(b).contains_key(m) == has_key(b, m));
    }
    increasing_keys_are_unique(a, b);
    assert forall|i: int| 0 <= i < a.len() implies #[trigger] pair_hashes(a)[i] == pair_hashes(
        b,
    )[i] by {
        let m = a[i].0.model();
        assert(b[i].0.model() == m);
        entry_found(a, i);
        entry_found(b, i);
        assert(hash_values(entries_map(a))[m] == names[m]);
        assert(hash_values(entries_map(b))[m] == names[m]);
    }
    assert(pair_hashes(a) =~= pair_hashes(b));
}

/// A second collection with the same roots removes nothing and changes nothing.
pub proof fn a_second_collection_removes_nothing(
    v: StoreView,
    extra: Seq<Seq<u8>>,
    bound: Map<Seq<char>, Seq<u8>>,
    names: (Seq<(String, Digest)>, Seq<(String, Digest)>),
    pointers: (Seq<(String, Digest)>, Seq<(String, Digest)>),
    tags: (Seq<(String, Digest)>, Seq<(String, Digest)>),
    steps: (nat, nat),
    n: usize,
    w: StoreView,
    r: Result<usize, StoreFault>,
    x: StoreView,
)
    requires
        lists_names(bound, names.0),
        lists_names(bound, names.1),
        lists_pointers(v.pointers, pointers.0),
        lists_pointers(w.pointers, pointers.1),
        lists_tags(v.tags, tags.0),
        lists_tags(w.tags, tags.1),
        collected(v, extra, names.0, pointers.0, tags.0, steps.0, Ok(n), w),
        collected(w, extra, names.1, pointers.1, tags.1, steps.1, r, x),
    ensures
        r == Ok::<usize, StoreFault>(0),
        x == w,
{
    let (roots, keep) = gc_roots(v, extra, names.0, pointers.0, tags.0)->Ok_0;
    let reachable = mark_run(v.objects, mark_start(roots), steps.0)->0->Ok_0;
    let (keys, metas) = choose|keys: Seq<Digest>, metas: Seq<Digest>| #[trigger]
        lists_keys(keys, v.objects.dom()) && #[trigger] lists_keys(metas, v.manifests.dom())
            && n == count_outside(count_outside(0, keys, reachable), metas, keep) && w
            == swept_manifests(swept_objects(v, keys, reachable), metas, keep);
    lemma_sweeping_keeps_the_rest(v, keys, metas, reachable, keep);
    lemma_sweeping_objects_keeps_manifests(v, keys, reachable);
    let ph = pair_hashes(pointers.0);
    let th = pair_hashes(tags.0);
    lemma_one_listing(bound, names.0, names.1);
    enumeration_is_unique(pair_names(pointers.0), pair_names(pointers.1), pointing(v.pointers));
    enumeration_is_unique(pair_names(tags.0), pair_names(tags.1), tagging(v.tags));
    assert(pair_hashes(pointers.1) =~= ph) by {
        assert forall|i: int| 0 <= i < ph.len() implies #[trigger] pair_hashes(pointers.1)[i]
            == ph[i] by {
            assert(pair_names(pointers.0)[i] == pair_names(pointers.1)[i]);
            assert(pointers.0[i].0@ == pointers.1[i].0@);
        }
        assert(pair_names(pointers.0).len() == pair_names(pointers.1).len());
    }
    assert(pair_hashes(tags.1) =~= th) by {
        assert forall|i: int| 0 <= i < th.len() implies #[trigger] pair_hashes(tags.1)[i]
            == th[i] by {
            assert(pair_names(tags.0)[i] == pair_names(tags.1)[i]);
            assert(tags.0[i].0@ == tags.1[i].0@);
        }
        assert(pair_names(tags.0).len() == pair_names(tags.1).len());
    }
    assert forall|h: Seq<u8>| #[trigger] ph.contains(h) implies sound_manifest(w.manifests, h)
        == sound_manifest(v.manifests, h) by {
        collection_leaves_what_is_reachable(
            v,
            extra,
            names.0,
            pointers.0,
            tags.0,
            steps.0,
            n,
            w,
            h,
        );
    }
    assert forall|h: Seq<u8>| #[trigger] th.contains(h) implies manifest_at(w.manifests, h)
        == manifest_at(v.manifests, h) by {
        collection_leaves_what_is_reachable(
            v,
            extra,
            names.0,
            pointers.0,
            tags.0,
            steps.0,
            n,
            w,
            h,
        );
        lemma_tags_kept(v.manifests, th, h);
    }
    lemma_same_pointer_roots(v.manifests, w.manifests, ph);
    lemma_same_tag_roots(v.manifests, w.manifests, th);
    assert(gc_roots(w, extra, names.1, pointers.1, tags.1) == Ok::<
        (Seq<Seq<u8>>, Set<Seq<u8>>),
        StoreFault,
    >((roots, keep)));
    assert forall|h: Seq<u8>| reachable.contains(h) implies #[trigger] object_at(w.objects, h)
        == object_at(v.objects, h) by {
        sweeping_keeps_what_is_reachable(v, keys, metas, reachable, keep, h);
    }
    lemma_same_marks(v.objects, w.objects, mark_start(roots), steps.0, reachable);
    if steps.0 <= steps.1 {
        lemma_more_steps(w.objects, mark_start(roots), steps.0, steps.1);
    } else {
        lemma_more_steps(w.objects, mark_start(roots), steps.1, steps.0);
    }
    let (again, metas_again) = choose|again: Seq<Digest>, metas_again: Seq<Digest>| #[trigger]
        lists_keys(again, w.objects.dom()) && #[trigger] lists_keys(metas_again, w.manifests.dom())
            && r == Ok::<usize, StoreFault>(
            count_outside(count_outside(0, again, reachable), metas_again, keep),
        ) && x == swept_manifests(swept_objects(w, again, reachable), metas_again, keep);
    assert forall|i: int| 0 <= i < again.len() implies reachable.contains(
        (#[trigger] again[i])@,
    ) by {
        assert(w.objects.dom().contains(again[i]@));
        sweeping_keeps_what_is_reachable(v, keys, metas, reachable, keep, again[i]@);
    }
    assert forall|i: int| 0 <= i < metas_again.len() implies keep.contains(
        (#[trigger] metas_again[i])@,
    ) by {
        let h = metas_again[i]@;
        assert(w.manifests.dom().contains(h));
        lemma_manifests_left(swept_objects(v, keys, reachable), metas, keep, h);
        assert(v.manifests.dom().contains(h));
    }
    lemma_nothing_outside(w, again, reachable);
    lemma_nothing_outside(w, metas_again, keep);
}

} // verus!
