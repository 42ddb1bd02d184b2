//! What a store of compiled code, and what a library of sources, hand back.

use vstd::prelude::*;

use crate::bytecode::FunctionView;
use crate::compiler::module_output::{kept, with_redirects};
use crate::core_library::{last_named, relative_name, CoreModuleView};
use crate::digest::Digest;
use crate::disk_store::bindings::{new_objects, with_object_files};
use crate::disk_store::manifests::{sound_manifest, sound_manifests};
use crate::disk_store::objects::StoreView;
use crate::object::{materialized, object_hash, ObjectView, RedirectView, StoredObject};
use crate::store::{holds, with_functions, with_object, HeldView};

verus! {

// ── compiled code ───────────────────────────────────────────────────────────

proof fn lemma_functions_held(
    m: Map<Seq<u8>, FunctionView>,
    fs: Seq<(Seq<u8>, FunctionView)>,
    h: Seq<u8>,
)
    ensures
        m.contains_key(h) ==> with_functions(m, fs).contains_key(h),
        forall|i: int| 0 <= i < fs.len() ==> with_functions(m, fs).contains_key((#[trigger] fs[i]).0),
        (forall|i: int| 0 <= i < fs.len() ==> (#[trigger] fs[i]).0 != h) ==> (with_functions(
            m,
            fs,
        ).contains_key(h) == m.contains_key(h) && with_functions(m, fs)[h] == m[h]),
    decreases fs.len(),
{
    if fs.len() > 0 {
        let rest = fs.drop_last();
        lemma_functions_held(m, rest, h);
        assert forall|i: int| 0 <= i < fs.len() implies with_functions(m, fs).contains_key(
            (#[trigger] fs[i]).0,
        ) by {
            if i < rest.len() {
                assert(rest[i] == fs[i]);
            }
        }
        if forall|i: int| 0 <= i < fs.len() ==> (#[trigger] fs[i]).0 != h {
            assert forall|i: int| 0 <= i < rest.len() implies (#[trigger] rest[i]).0 != h by {
                assert(fs[i] == rest[i]);
            }
            assert(fs[fs.len() - 1].0 != h);
        }
    }
}

proof fn lemma_function_at(
    m: Map<Seq<u8>, FunctionView>,
    fs: Seq<(Seq<u8>, FunctionView)>,
    i: int,
)
    requires
        0 <= i < fs.len(),
        forall|j: int| i < j < fs.len() ==> (#[trigger] fs[j]).0 != fs[i].0,
    ensures
        with_functions(m, fs)[fs[i].0] == fs[i].1,
    decreases fs.len(),
{
    if i < fs.len() - 1 {
        let rest = fs.drop_last();
        assert forall|j: int| i < j < rest.len() implies (#[trigger] rest[j]).0 != rest[i].0 by {
            assert(fs[j] == rest[j]);
        }
        lemma_function_at(m, rest, i);
        assert(fs[fs.len() - 1].0 != fs[i].0);
    }
}

/// What was added is held: a value or a native function under its hash, the functions
/// of any other object under theirs. What was held before stays held. A redirect is
/// refused.
pub proof fn added_objects_are_held(v: HeldView, o: ObjectView, h: Seq<u8>)
    ensures
        match with_object(v, o) {
            Err(_) => o is Redirect || materialized(o) is Err,
            Ok(w) => {
                &&& holds(v, h) ==> holds(w, h)
                &&& match o {
                    ObjectView::Value(_) | ObjectView::Native(_) => holds(w, object_hash(o))
                        && w.leaves[object_hash(o)] == o && w.functions == v.functions,
                    _ => materialized(o) is Ok && w.leaves == v.leaves && forall|i: int|
                        0 <= i < materialized(o)->Ok_0.len() ==> holds(
                            w,
                            (#[trigger] materialized(o)->Ok_0[i]).0,
                        ),
                }
            },
        },
{
    if let Ok(fs) = materialized(o) {
        lemma_functions_held(v.functions, fs, h);
    }
}

/// A function of an added object is what is held under its hash, where no later one
/// has the same hash; what lies under other hashes is as it was.
pub proof fn held_functions_are_those_added(
    m: Map<Seq<u8>, FunctionView>,
    fs: Seq<(Seq<u8>, FunctionView)>,
    i: int,
    h: Seq<u8>,
)
    requires
        0 <= i < fs.len(),
        forall|j: int| i < j < fs.len() ==> (#[trigger] fs[j]).0 != fs[i].0,
        forall|j: int| 0 <= j < fs.len() ==> (#[trigger] fs[j]).0 != h,
    ensures
        with_functions(m, fs)[fs[i].0] == fs[i].1,
        with_functions(m, fs).contains_key(h) == m.contains_key(h),
        with_functions(m, fs)[h] == m[h],
{
    lemma_function_at(m, fs, i);
    lemma_functions_held(m, fs, h);
}

/// A member of a group is found by a redirect under its hash, which says the group and
/// the member's place in it; nothing else is changed.
pub proof fn members_are_redirected_to_their_group(
    m: Map<Seq<u8>, ObjectView>,
    group: Seq<u8>,
    fs: Seq<(Seq<u8>, FunctionView)>,
    h: Seq<u8>,
)
    requires
        forall|i: int, j: int|
            0 <= i < j < fs.len() ==> (#[trigger] fs[i]).0 != (#[trigger] fs[j]).0,
        fs.len() <= u32::MAX,
    ensures
        forall|i: int|
            0 <= i < fs.len() ==> {
                let all = with_redirects(m, group, fs);
                all.contains_key((#[trigger] fs[i]).0) && all[fs[i].0] == ObjectView::Redirect(
                    RedirectView { group, index: i as u32 },
                )
            },
        (forall|i: int| 0 <= i < fs.len() ==> (#[trigger] fs[i]).0 != h) ==> (with_redirects(
            m,
            group,
            fs,
        ).contains_key(h) == m.contains_key(h) && with_redirects(m, group, fs)[h] == m[h]),
    decreases fs.len(),
{
    if fs.len() > 0 {
        let rest = fs.drop_last();
        assert forall|i: int, j: int| 0 <= i < j < rest.len() implies (#[trigger] rest[i]).0 != (
        #[trigger] rest[j]).0 by {
            assert(fs[i].0 != fs[j].0);
        }
        members_are_redirected_to_their_group(m, group, rest, h);
        let all = with_redirects(m, group, fs);
        assert forall|i: int| 0 <= i < fs.len() implies all.contains_key((#[trigger] fs[i]).0)
            && all[fs[i].0] == ObjectView::Redirect(RedirectView { group, index: i as u32 }) by {
            if i < rest.len() {
                assert(rest[i] == fs[i]);
                assert(fs[i].0 != fs[fs.len() - 1].0);
            }
        }
        if forall|i: int| 0 <= i < fs.len() ==> (#[trigger] fs[i]).0 != h {
            assert forall|i: int| 0 <= i < rest.len() implies (#[trigger] rest[i]).0 != h by {
                assert(fs[i] == rest[i]);
            }
            assert(fs[fs.len() - 1].0 != h);
        }
    }
}

/// What is there already is kept, and the first of several new entries of a key is.
pub proof fn the_first_entry_is_kept<A, B>(m: Map<A, B>, es: Seq<(A, B)>, k: A)
    ensures
        m.contains_key(k) ==> kept(m, es).contains_key(k) && kept(m, es)[k] == m[k],
        !m.contains_key(k) ==> match first_entry(es, k) {
            Some(v) => kept(m, es).contains_key(k) && kept(m, es)[k] == v,
            None => !kept(m, es).contains_key(k),
        },
    decreases es.len(),
{
    if es.len() > 0 {
        the_first_entry_is_kept(m, es.drop_last(), k);
    }
}

/// What the first entry of a key says.
pub open spec fn first_entry<A, B>(es: Seq<(A, B)>, k: A) -> Option<B>
    decreases es.len(),
{
    if es.len() == 0 {
        None
    } else {
        match first_entry(es.drop_last(), k) {
            Some(v) => Some(v),
            None => if es.last().0 == k {
                Some(es.last().1)
            } else {
                None
            },
        }
    }
}

// ── files ───────────────────────────────────────────────────────────────────

/// The number of new objects is by how many the store has grown.
pub proof fn new_objects_are_counted(v: StoreView, objects: Seq<(Digest, StoredObject)>)
    requires
        v.objects.dom().finite(),
    ensures
        with_object_files(v, objects).objects.dom().finite(),
        with_object_files(v, objects).objects.dom().len() == v.objects.dom().len() + new_objects(
            v,
            objects,
        ),
    decreases objects.len(),
{
    if objects.len() > 0 {
        let rest = objects.drop_last();
        new_objects_are_counted(v, rest);
        let was = with_object_files(v, rest).objects;
        let now = with_object_files(v, objects).objects;
        let h = objects.last().0@;
        assert(now.dom() =~= was.dom().insert(h));
    }
}

/// The manifests under some hashes are those that are sound: each is under one of the
/// hashes, and none that is sound is left out.
pub proof fn sound_manifests_are_all_listed(
    manifests: Map<Seq<u8>, Seq<u8>>,
    hashes: Seq<Seq<u8>>,
    i: int,
)
    requires
        0 <= i < hashes.len(),
    ensures
        sound_manifest(manifests, hashes[i]) matches Some(m) ==> sound_manifests(
            manifests,
            hashes,
        ).contains(m),
    decreases hashes.len(),
{
    let rest = hashes.drop_last();
    let was = sound_manifests(manifests, rest);
    let all = sound_manifests(manifests, hashes);
    if sound_manifest(manifests, hashes[i]) is Some {
        let m = sound_manifest(manifests, hashes[i])->0;
        if i < rest.len() {
            sound_manifests_are_all_listed(manifests, rest, i);
            assert(rest[i] == hashes[i]);
            let k = choose|k: int| 0 <= k < was.len() && was[k] == m;
            assert(all[k] == m);
        } else if rest.contains(hashes[i]) {
            let j = choose|j: int| 0 <= j < rest.len() && rest[j] == hashes[i];
            sound_manifests_are_all_listed(manifests, rest, j);
        } else {
            assert(all[was.len() as int] == m);
        }
    }
}

/// A listed manifest is the sound one under some of the hashes.
pub proof fn listed_manifests_are_sound(
    manifests: Map<Seq<u8>, Seq<u8>>,
    hashes: Seq<Seq<u8>>,
    k: int,
)
    requires
        0 <= k < sound_manifests(manifests, hashes).len(),
    ensures
        exists|i: int|
            0 <= i < hashes.len() && sound_manifest(manifests, #[trigger] hashes[i]) == Some(
                sound_manifests(manifests, hashes)[k],
            ),
    decreases hashes.len(),
{
    if hashes.len() > 0 {
        let rest = hashes.drop_last();
        let was = sound_manifests(manifests, rest);
        let all = sound_manifests(manifests, hashes);
        if k < was.len() {
            listed_manifests_are_sound(manifests, rest, k);
            let i = choose|i: int|
                0 <= i < rest.len() && sound_manifest(manifests, #[trigger] rest[i]) == Some(
                    was[k],
                );
            assert(hashes[i] == rest[i]);
            assert(all[k] == was[k]);
        } else {
            assert(hashes[hashes.len() - 1] == hashes.last());
        }
    }
}

// ── the core library ────────────────────────────────────────────────────────

/// A module of the library is found by its name just where there is one, and of
/// several the last is.
pub proof fn modules_are_found_by_their_name(ms: Seq<CoreModuleView>, name: Seq<char>)
    ensures
        match last_named(ms, name) {
            Some(m) => exists|i: int|
                0 <= i < ms.len() && #[trigger] ms[i] == m && relative_name(m) == name && forall|
                    j: int,
                |
                    i < j < ms.len() ==> relative_name(#[trigger] ms[j]) != name,
            None => forall|i: int| 0 <= i < ms.len() ==> relative_name(#[trigger] ms[i]) != name,
        },
    decreases ms.len(),
{
    if ms.len() > 0 {
        let rest = ms.drop_last();
        let n = ms.len() - 1;
        assert(ms[n] == ms.last());
        if relative_name(ms.last()) != name {
            modules_are_found_by_their_name(rest, name);
            assert(forall|i: int| 0 <= i < rest.len() ==> #[trigger] rest[i] == ms[i]);
            if last_named(rest, name) is Some {
                let m = last_named(rest, name)->0;
                let i = choose|i: int|
                    0 <= i < rest.len() && #[trigger] rest[i] == m && relative_name(m) == name
                        && forall|j: int|
                        i < j < rest.len() ==> relative_name(#[trigger] rest[j]) != name;
                assert(ms[i] == m);
                assert forall|j: int| i < j < ms.len() implies relative_name(#[trigger] ms[j])
                    != name by {
                    if j < n {
                        assert(rest[j] == ms[j]);
                    }
                }
            } else {
                assert forall|i: int| 0 <= i < ms.len() implies relative_name(#[trigger] ms[i])
                    != name by {
                    if i < n {
                        assert(rest[i] == ms[i]);
                    }
                }
            }
        }
    }
}

} // verus!
