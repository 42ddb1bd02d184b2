//! How much a collection removes.

use vstd::prelude::*;

use crate::digest::Digest;
use crate::disk_store::gc::{
    collected, count_outside, gc_roots, lemma_sweeping_objects_keeps_manifests, mark_run,
    mark_start, swept_manifests, swept_objects,
};
use crate::disk_store::manifests::lists_keys;
use crate::disk_store::objects::StoreView;
use crate::order::bytes_lt_irreflexive;

verus! {

/// Whether some hashes are all different.
spec fn all_differ(keys: Seq<Digest>) -> bool {
    forall|i: int, j: int| 0 <= i < j < keys.len() ==> (#[trigger] keys[i])@ != (#[trigger] keys[j])@
}

proof fn lemma_counting_on(start: usize, keys: Seq<Digest>, set: Set<Seq<u8>>)
    requires
        start + keys.len() <= usize::MAX,
    ensures
        count_outside(start, keys, set) == start + count_outside(0, keys, set),
        count_outside(0, keys, set) <= keys.len(),
    decreases keys.len(),
{
    if keys.len() > 0 {
        lemma_counting_on(start, keys.drop_last(), set);
    }
}

proof fn lemma_object_untouched(
    v: StoreView,
    keys: Seq<Digest>,
    reachable: Set<Seq<u8>>,
    h: Seq<u8>,
)
    requires
        forall|i: int| 0 <= i < keys.len() ==> (#[trigger] keys[i])@ != h,
    ensures
        swept_objects(v, keys, reachable).objects.contains_key(h) == v.objects.contains_key(h),
    decreases keys.len(),
{
    if keys.len() > 0 {
        let rest = keys.drop_last();
        assert forall|i: int| 0 <= i < rest.len() implies (#[trigger] rest[i])@ != h by {
            assert(keys[i] == rest[i]);
        }
        lemma_object_untouched(v, rest, reachable, h);
        assert(keys[keys.len() - 1]@ != h);
    }
}

proof fn lemma_manifest_untouched(v: StoreView, keys: Seq<Digest>, keep: Set<Seq<u8>>, h: Seq<u8>)
    requires
        forall|i: int| 0 <= i < keys.len() ==> (#[trigger] keys[i])@ != h,
    ensures
        swept_manifests(v, keys, keep).manifests.contains_key(h) == v.manifests.contains_key(h),
    decreases keys.len(),
{
    if keys.len() > 0 {
        let rest = keys.drop_last();
        assert forall|i: int| 0 <= i < rest.len() implies (#[trigger] rest[i])@ != h by {
            assert(keys[i] == rest[i]);
        }
        lemma_manifest_untouched(v, rest, keep, h);
        assert(keys[keys.len() - 1]@ != h);
    }
}

proof fn lemma_objects_counted(v: StoreView, keys: Seq<Digest>, reachable: Set<Seq<u8>>)
    requires
        v.objects.dom().finite(),
        keys.len() <= usize::MAX,
        all_differ(keys),
        forall|i: int| 0 <= i < keys.len() ==> v.objects.contains_key((#[trigger] keys[i])@),
    ensures
        swept_objects(v, keys, reachable).objects.dom().finite(),
        swept_objects(v, keys, reachable).objects.dom().len() + count_outside(0, keys, reachable)
            == v.objects.dom().len(),
    decreases keys.len(),
{
    if keys.len() > 0 {
        let rest = keys.drop_last();
        let h = keys.last()@;
        assert forall|i: int| 0 <= i < rest.len() implies v.objects.contains_key(
            (#[trigger] rest[i])@,
        ) && rest[i]@ != h by {
            assert(keys[i] == rest[i]);
            assert(keys[i]@ != keys[keys.len() - 1]@);
        }
        assert forall|i: int, j: int| 0 <= i < j < rest.len() implies (#[trigger] rest[i])@ != (
        #[trigger] rest[j])@ by {
            assert(keys[i]@ != keys[j]@);
        }
        lemma_objects_counted(v, rest, reachable);
        lemma_object_untouched(v, rest, reachable, h);
        assert(v.objects.contains_key(keys[keys.len() - 1]@));
        lemma_counting_on(0, rest, reachable);
        let was = swept_objects(v, rest, reachable).objects;
        assert(was.remove(h).dom() =~= was.dom().remove(h));
    }
}

proof fn lemma_manifests_counted(v: StoreView, keys: Seq<Digest>, keep: Set<Seq<u8>>)
    requires
        v.manifests.dom().finite(),
        keys.len() <= usize::MAX,
        all_differ(keys),
        forall|i: int| 0 <= i < keys.len() ==> v.manifests.contains_key((#[trigger] keys[i])@),
    ensures
        swept_manifests(v, keys, keep).objects == v.objects,
        swept_manifests(v, keys, keep).manifests.dom().finite(),
        swept_manifests(v, keys, keep).manifests.dom().len() + count_outside(0, keys, keep)
            == v.manifests.dom().len(),
    decreases keys.len(),
{
    if keys.len() > 0 {
        let rest = keys.drop_last();
        let h = keys.last()@;
        assert forall|i: int| 0 <= i < rest.len() implies v.manifests.contains_key(
            (#[trigger] rest[i])@,
        ) && rest[i]@ != h by {
            assert(keys[i] == rest[i]);
            assert(keys[i]@ != keys[keys.len() - 1]@);
        }
        assert forall|i: int, j: int| 0 <= i < j < rest.len() implies (#[trigger] rest[i])@ != (
        #[trigger] rest[j])@ by {
            assert(keys[i]@ != keys[j]@);
        }
        lemma_manifests_counted(v, rest, keep);
        lemma_manifest_untouched(v, rest, keep, h);
        assert(v.manifests.contains_key(keys[keys.len() - 1]@));
        lemma_counting_on(0, rest, keep);
        let was = swept_manifests(v, rest, keep).manifests;
        assert(was.remove(h).dom() =~= was.dom().remove(h));
    }
}

proof fn lemma_keys_differ(keys: Seq<Digest>, set: Set<Seq<u8>>)
    requires
        lists_keys(keys, set),
        set.finite(),
    ensures
        all_differ(keys),
        keys.len() == set.len(),
        forall|i: int| 0 <= i < keys.len() ==> set.contains((#[trigger] keys[i])@),
{
    assert forall|i: int, j: int| 0 <= i < j < keys.len() implies (#[trigger] keys[i])@ != (
    #[trigger] keys[j])@ by {
        bytes_lt_irreflexive(keys[i]@);
    }
    let hs = Seq::new(keys.len(), |i: int| keys[i]@);
    assert(hs.no_duplicates());
    hs.unique_seq_to_set();
    assert(hs.to_set() =~= set) by {
        assert forall|h: Seq<u8>| hs.to_set().contains(h) == set.contains(h) by {
            if set.contains(h) {
                let i = choose|i: int| 0 <= i < keys.len() && (#[trigger] keys[i])@ == h;
                assert(hs[i] == h);
            }
            if hs.to_set().contains(h) {
                let i = choose|i: int| 0 <= i < hs.len() && hs[i] == h;
                assert(keys[i]@ == h);
            }
        }
    }
}

/// The result of a collection is by how many files the store is smaller behind it,
/// objects and manifests together.
pub proof fn collections_count_what_they_remove(
    v: StoreView,
    extra: Seq<Seq<u8>>,
    names: Seq<(String, Digest)>,
    pointers: Seq<(String, Digest)>,
    tags: Seq<(String, Digest)>,
    steps: nat,
    n: usize,
    w: StoreView,
)
    requires
        collected(v, extra, names, pointers, tags, steps, Ok(n), w),
        v.objects.dom().finite(),
        v.manifests.dom().finite(),
        v.objects.dom().len() + v.manifests.dom().len() <= usize::MAX,
    ensures
        w.objects.dom().finite() && w.manifests.dom().finite(),
        w.objects.dom().len() + w.manifests.dom().len() + n == v.objects.dom().len()
            + v.manifests.dom().len(),
{
    let (roots, keep) = gc_roots(v, extra, names, pointers, tags)->Ok_0;
    let reachable = mark_run(v.objects, mark_start(roots), steps)->0->Ok_0;
    let (keys, metas) = choose|keys: Seq<Digest>, metas: Seq<Digest>| #[trigger]
        lists_keys(keys, v.objects.dom()) && #[trigger] lists_keys(metas, v.manifests.dom())
            && n == count_outside(count_outside(0, keys, reachable), metas, keep) && w
            == swept_manifests(swept_objects(v, keys, reachable), metas, keep);
    lemma_keys_differ(keys, v.objects.dom());
    lemma_keys_differ(metas, v.manifests.dom());
    let mid = swept_objects(v, keys, reachable);
    lemma_objects_counted(v, keys, reachable);
    lemma_sweeping_objects_keeps_manifests(v, keys, reachable);
    lemma_manifests_counted(mid, metas, keep);
    lemma_counting_on(0, keys, reachable);
    lemma_counting_on(count_outside(0, keys, reachable), metas, keep);
}

} // verus!
