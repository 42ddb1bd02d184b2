//! Collecting the objects that nothing needs.
//!
//! What the names are bound to, what the current snapshots of the packages and
//! the tagged ones refer to, and whatever else is asked for is kept, with
//! everything that it refers to, directly or not.

use vstd::prelude::*;

use crate::bytecode::{copy_digests, digest_views, CompiledFunction, FunctionView};
use crate::digest::Digest;
use crate::disk_store::bindings::names_in;
use crate::disk_store::closure::{entries_are_finite, push_hashes, push_targets, targets};
use crate::disk_store::error::{DiskStoreError, StoreFault};
use crate::disk_store::files::{hash_path, ChangeView, FileChange};
use crate::disk_store::index::hash_values;
use crate::disk_store::manifests::{
    keys_of, lists_keys, lists_pointers, manifest_at, pair_hashes, sound_manifest,
};
use crate::disk_store::objects::{object_at, DiskStore, StoreView};
use crate::disk_store::snapshot::{modules_objects, ManifestView};
use crate::disk_store::tags::lists_tags;
use crate::object::{function_pairs, materialized, ObjectView, StoredObject};
use crate::ordmap::{entries_map, keys_increase, Key, OrdMap};
use crate::wire::contents;

verus! {

broadcast use {vstd::string::group_string_axioms, vstd::array::group_array_axioms};

// ── marking ─────────────────────────────────────────────────────────────────

/// How far marking has come.
pub struct Marking {
    /// The hashes that are still to be looked at, the next one last.
    pub pending: Seq<Seq<u8>>,
    /// The hashes that are reachable.
    pub reachable: Set<Seq<u8>>,
}

/// The hashes that functions lie under.
pub open spec fn hashes_of(fs: Seq<(Seq<u8>, FunctionView)>) -> Set<Seq<u8>> {
    Set::new(|h: Seq<u8>| exists|i: int| 0 <= i < fs.len() && (#[trigger] fs[i]).0 == h)
}

/// With what an object holds marked: the functions are reachable, and what they
/// refer to is to be looked at. An object that cannot be loaded holds nothing.
pub open spec fn with_object_marked(s: Marking, o: ObjectView) -> Marking {
    match materialized(o) {
        Err(_) => s,
        Ok(fs) => Marking {
            pending: s.pending + targets(fs),
            reachable: s.reachable.union(hashes_of(fs)),
        },
    }
}

/// Look at the next hash, unless it is reachable already.
pub open spec fn mark_step(objects: Map<Seq<u8>, Seq<u8>>, s: Marking) -> Result<
    Marking,
    StoreFault,
> {
    let h = s.pending.last();
    let rest = Marking { pending: s.pending.drop_last(), reachable: s.reachable.insert(h) };
    if s.reachable.contains(h) {
        Ok(rest)
    } else {
        match object_at(objects, h) {
            Err(e) => Err(e),
            Ok(None) => Ok(rest),
            Ok(Some(ObjectView::Redirect(t))) => {
                let more = Marking { reachable: rest.reachable.insert(t.group), ..rest };
                match object_at(objects, t.group) {
                    Err(e) => Err(e),
                    Ok(None) => Ok(more),
                    Ok(Some(g)) => Ok(with_object_marked(more, g)),
                }
            },
            Ok(Some(o)) => Ok(with_object_marked(rest, o)),
        }
    }
}

/// What marking comes to within a number of steps: what is reachable, or what
/// stopped it. `None` where it takes more steps.
pub open spec fn mark_run(objects: Map<Seq<u8>, Seq<u8>>, s: Marking, steps: nat) -> Option<
    Result<Set<Seq<u8>>, StoreFault>,
>
    decreases steps,
{
    if s.pending.len() == 0 {
        Some(Ok(s.reachable))
    } else if steps == 0 {
        None
    } else {
        match mark_step(objects, s) {
            Err(e) => Some(Err(e)),
            Ok(next) => mark_run(objects, next, (steps - 1) as nat),
        }
    }
}

/// Where marking begins.
pub open spec fn mark_start(roots: Seq<Seq<u8>>) -> Marking {
    Marking { pending: roots, reachable: Set::empty() }
}

/// Mark functions as reachable.
fn mark_functions(reachable: &mut OrdMap<Digest, ()>, fs: &Vec<(Digest, CompiledFunction)>)
    ensures
        final(reachable)@.dom() == old(reachable)@.dom().union(hashes_of(function_pairs(fs@))),
{
    let ghost was = reachable@.dom();
    let ghost all = function_pairs(fs@);
    let mut i: usize = 0;
    assert(reachable@.dom() =~= was.union(hashes_of(all.take(0))));
    while i < fs.len()
        invariant
            i <= fs@.len(),
            all == function_pairs(fs@),
            reachable@.dom() == was.union(hashes_of(all.take(i as int))),
        decreases fs@.len() - i,
    {
        let ghost now = reachable@.dom();
        let ghost before = all.take(i as int);
        let ghost after = all.take(i + 1);
        reachable.insert(fs[i].0, ());
        proof {
            assert(after[i as int] == all[i as int]);
            assert forall|h: Seq<u8>| hashes_of(after).contains(h) <==> hashes_of(before).contains(h)
                || h == all[i as int].0 by {
                if hashes_of(after).contains(h) {
                    let k = choose|k: int| 0 <= k < after.len() && (#[trigger] after[k]).0 == h;
                    if k < i {
                        assert(before[k] == after[k]);
                    }
                }
                if hashes_of(before).contains(h) {
                    let k = choose|k: int| 0 <= k < before.len() && (#[trigger] before[k]).0 == h;
                    assert(after[k] == before[k]);
                }
            }
            assert(reachable@.dom() =~= now.insert(all[i as int].0));
            assert(reachable@.dom() =~= was.union(hashes_of(after)));
        }
        i = i + 1;
    }
    assert(all.take(all.len() as int) =~= all);
}

impl DiskStore {
    /// Look at a hash that is not reachable yet: the functions of its object are
    /// marked, and what they refer to is to be looked at.
    fn mark_object(
        &self,
        hash: &Digest,
        pending: &mut Vec<Digest>,
        reachable: &mut OrdMap<Digest, ()>,
    ) -> (r: Result<(), DiskStoreError>)
        requires
            !old(reachable)@.contains_key(hash@),
        ensures
            ({
                let s = Marking {
                    pending: digest_views(old(pending)@).push(hash@),
                    reachable: old(reachable)@.dom(),
                };
                match mark_step(self@.objects, s) {
                    Ok(next) => {
                        &&& r is Ok
                        &&& digest_views(final(pending)@) == next.pending
                        &&& final(reachable)@.dom() == next.reachable
                    },
                    Err(e) => r matches Err(x) && x@ == e,
                }
            }),
    {
        let ghost s = Marking {
            pending: digest_views(pending@).push(hash@),
            reachable: reachable@.dom(),
        };
        assert(s.pending.drop_last() =~= digest_views(pending@));
        reachable.insert(*hash, ());
        assert(reachable@.dom() =~= s.reachable.insert(hash@));
        let object = match self.get_object(hash)? {
            None => {
                return Ok(());
            },
            Some(StoredObject::Redirect(t)) => {
                let ghost now = reachable@.dom();
                reachable.insert(t.group, ());
                assert(reachable@.dom() =~= now.insert(t.group@));
                match self.get_object(&t.group)? {
                    None => {
                        return Ok(());
                    },
                    Some(g) => g,
                }
            },
            Some(o) => o,
        };
        if let Ok(fs) = object.materialize() {
            mark_functions(reachable, &fs);
            push_targets(pending, &fs);
        }
        Ok(())
    }

    /// Mark everything that is reachable from some hashes.
    fn mark(&self, roots: Vec<Digest>) -> (r: Result<OrdMap<Digest, ()>, DiskStoreError>)
        ensures
            exists|steps: nat|
                match #[trigger] mark_run(
                    self@.objects,
                    mark_start(digest_views(roots@)),
                    steps,
                ) {
                    Some(Ok(reachable)) => r matches Ok(m) && m@.dom() == reachable,
                    Some(Err(e)) => r matches Err(x) && x@ == e,
                    None => false,
                },
    {
        let ghost objects = self@.objects;
        let ghost start = mark_start(digest_views(roots@));
        let mut pending: Vec<Digest> = roots;
        let mut reachable: OrdMap<Digest, ()> = OrdMap::new();
        let listed = self.objects.items();
        let ghost mut s = start;
        let ghost mut taken: nat = 0;
        proof {
            entries_are_finite(listed@);
            assert(objects.dom() =~= self.objects@.dom());
            assert(reachable@.dom() =~= start.reachable);
        }
        while pending.len() > 0
            invariant
                objects == self@.objects,
                start == mark_start(digest_views(roots@)),
                objects.dom().finite(),
                s.pending == digest_views(pending@),
                s.reachable == reachable@.dom(),
                forall|n: nat| #[trigger]
                    mark_run(objects, s, n) == mark_run(objects, start, taken + n),
            decreases objects.dom().difference(s.reachable).len(), pending@.len(),
        {
            let ghost before = s;
            let hash = pending[pending.len() - 1];
            let _ = pending.pop();
            assert(hash@ == before.pending.last());
            assert(digest_views(pending@) =~= before.pending.drop_last());
            assert(before.pending =~= digest_views(pending@).push(hash@));
            assert(mark_run(objects, before, 1) == mark_run(objects, start, taken + 1));
            if reachable.contains_key(&hash) {
                proof {
                    s = mark_step(objects, before)->Ok_0;
                    assert(s.reachable =~= before.reachable);
                }
            } else {
                match self.mark_object(&hash, &mut pending, &mut reachable) {
                    Err(e) => {
                        assert(mark_run(objects, start, taken + 1) is Some);
                        return Err(e);
                    },
                    Ok(_) => {},
                }
                proof {
                    s = mark_step(objects, before)->Ok_0;
                    lemma_step_marks(objects, before);
                }
            }
            proof {
                assert forall|n: nat| #[trigger]
                    mark_run(objects, s, n) == mark_run(objects, start, taken + 1 + n) by {
                    assert(mark_run(objects, before, n + 1) == mark_run(
                        objects,
                        start,
                        taken + (n + 1),
                    ));
                }
                taken = taken + 1;
            }
        }
        assert(mark_run(objects, s, 0) == mark_run(objects, start, taken + 0));
        assert(mark_run(objects, start, taken) is Some);
        Ok(reachable)
    }
}

/// A step that looks at an object leaves fewer objects to be marked; any other
/// step leaves one hash less to be looked at.
proof fn lemma_step_marks(objects: Map<Seq<u8>, Seq<u8>>, s: Marking)
    requires
        objects.dom().finite(),
        s.pending.len() > 0,
        !s.reachable.contains(s.pending.last()),
        mark_step(objects, s) is Ok,
    ensures
        ({
            let next = mark_step(objects, s)->Ok_0;
            let all = objects.dom();
            all.difference(next.reachable).len() < all.difference(s.reachable).len() || (
            all.difference(next.reachable).len() == all.difference(s.reachable).len()
                && next.pending.len() < s.pending.len())
        }),
{
    let next = mark_step(objects, s)->Ok_0;
    let h = s.pending.last();
    let all = objects.dom();
    assert(s.reachable.subset_of(next.reachable));
    assert(next.reachable.contains(h));
    vstd::set_lib::lemma_set_subset_finite(all, all.difference(s.reachable));
    if all.contains(h) {
        all.difference(next.reachable).lemma_subset_not_in_lt(all.difference(s.reachable), h);
    } else {
        assert(all.difference(next.reachable) =~= all.difference(s.reachable));
    }
}

// ── roots ───────────────────────────────────────────────────────────────────

/// What current manifests refer to, and which there are. One that is not intact
/// counts as none.
pub open spec fn pointer_roots(manifests: Map<Seq<u8>, Seq<u8>>, hashes: Seq<Seq<u8>>) -> (
    Seq<Seq<u8>>,
    Set<Seq<u8>>,
)
    decreases hashes.len(),
{
    if hashes.len() == 0 {
        (seq![], Set::empty())
    } else {
        let (objects, keep) = pointer_roots(manifests, hashes.drop_last());
        match sound_manifest(manifests, hashes.last()) {
            None => (objects, keep),
            Some(m) => (objects + modules_objects(m.modules), keep.insert(hashes.last())),
        }
    }
}

/// What tagged manifests refer to, and which there are; or what stops reading
/// them.
pub open spec fn tag_roots(manifests: Map<Seq<u8>, Seq<u8>>, hashes: Seq<Seq<u8>>) -> Result<
    (Seq<Seq<u8>>, Set<Seq<u8>>),
    StoreFault,
>
    decreases hashes.len(),
{
    if hashes.len() == 0 {
        Ok((seq![], Set::empty()))
    } else {
        match tag_roots(manifests, hashes.drop_last()) {
            Err(e) => Err(e),
            Ok((objects, keep)) => match manifest_at(manifests, hashes.last()) {
                Err(e) => Err(e),
                Ok(None) => Ok((objects, keep)),
                Ok(Some(m)) => Ok(
                    (objects + modules_objects(m.modules), keep.insert(hashes.last())),
                ),
            },
        }
    }
}

proof fn lemma_tag_fault_stays(manifests: Map<Seq<u8>, Seq<u8>>, hashes: Seq<Seq<u8>>, k: int)
    requires
        0 <= k <= hashes.len(),
        tag_roots(manifests, hashes.take(k)) is Err,
    ensures
        tag_roots(manifests, hashes) == tag_roots(manifests, hashes.take(k)),
    decreases hashes.len() - k,
{
    if k < hashes.len() {
        assert(hashes.take(k + 1).drop_last() =~= hashes.take(k));
        lemma_tag_fault_stays(manifests, hashes, k + 1);
    } else {
        assert(hashes.take(k) =~= hashes);
    }
}

/// What is to be kept: the hashes to begin with, and the manifests. `names` are
/// the bindings in order of names, `pointers` and `tags` what the pointers and
/// the tags name, in order.
pub open spec fn gc_roots(
    v: StoreView,
    extra: Seq<Seq<u8>>,
    names: Seq<(String, Digest)>,
    pointers: Seq<(String, Digest)>,
    tags: Seq<(String, Digest)>,
) -> Result<(Seq<Seq<u8>>, Set<Seq<u8>>), StoreFault> {
    let bound = extra + pair_hashes(names);
    let (from_current, kept) = pointer_roots(v.manifests, pair_hashes(pointers));
    match tag_roots(v.manifests, pair_hashes(tags)) {
        Err(e) => Err(e),
        Ok((objects, keep)) => Ok((bound + from_current + objects, kept.union(keep))),
    }
}

/// Whether entries are bindings in order of names.
pub open spec fn lists_names(names: Map<Seq<char>, Seq<u8>>, s: Seq<(String, Digest)>) -> bool {
    keys_increase(s) && hash_values(entries_map(s)) == names
}

impl DiskStore {
    /// Append what current manifests refer to, and note which there are.
    fn add_pointer_roots(
        &self,
        pointers: &Vec<(String, Digest)>,
        pending: &mut Vec<Digest>,
        keep: &mut OrdMap<Digest, ()>,
    )
        ensures
            ({
                let (objects, kept) = pointer_roots(self@.manifests, pair_hashes(pointers@));
                digest_views(final(pending)@) == digest_views(old(pending)@) + objects
                    && final(keep)@.dom() == old(keep)@.dom().union(kept)
            }),
    {
        let ghost hashes = pair_hashes(pointers@);
        let ghost pending0 = digest_views(pending@);
        let ghost keep0 = keep@.dom();
        let ghost mut objects: Seq<Seq<u8>> = seq![];
        let ghost mut kept: Set<Seq<u8>> = Set::empty();
        let mut i: usize = 0;
        assert(hashes.take(0) =~= seq![]);
        assert(pending0 =~= pending0 + objects);
        assert(keep0 =~= keep0.union(kept));
        while i < pointers.len()
            invariant
                i <= pointers@.len(),
                hashes == pair_hashes(pointers@),
                pointer_roots(self@.manifests, hashes.take(i as int)) == (objects, kept),
                digest_views(pending@) == pending0 + objects,
                keep@.dom() == keep0.union(kept),
            decreases pointers@.len() - i,
        {
            assert(hashes.take(i + 1).drop_last() =~= hashes.take(i as int));
            let hash = pointers[i].1;
            assert(hashes.take(i + 1).last() == hash@);
            if let Some(m) = self.manifest_or_miss(&hash) {
                let refs = m.referenced_objects();
                push_hashes(pending, &refs);
                let ghost before = keep@.dom();
                keep.insert(hash, ());
                proof {
                    assert(digest_views(refs@) =~= contents(refs@));
                    let more = modules_objects(m@.modules);
                    assert(pending0 + (objects + more) =~= (pending0 + objects) + more);
                    assert(keep@.dom() =~= before.insert(hash@));
                    assert(before.insert(hash@) =~= keep0.union(kept.insert(hash@)));
                    objects = objects + more;
                    kept = kept.insert(hash@);
                }
            }
            i = i + 1;
        }
        assert(hashes.take(hashes.len() as int) =~= hashes);
    }

    /// Append what tagged manifests refer to, and note which there are.
    fn add_tag_roots(
        &self,
        tags: &Vec<(String, Digest)>,
        pending: &mut Vec<Digest>,
        keep: &mut OrdMap<Digest, ()>,
    ) -> (r: Result<(), DiskStoreError>)
        ensures
            match tag_roots(self@.manifests, pair_hashes(tags@)) {
                Ok((objects, kept)) => r is Ok && digest_views(final(pending)@) == digest_views(
                    old(pending)@,
                ) + objects && final(keep)@.dom() == old(keep)@.dom().union(kept),
                Err(e) => r matches Err(x) && x@ == e,
            },
    {
        let ghost hashes = pair_hashes(tags@);
        let ghost pending0 = digest_views(pending@);
        let ghost keep0 = keep@.dom();
        let ghost mut objects: Seq<Seq<u8>> = seq![];
        let ghost mut kept: Set<Seq<u8>> = Set::empty();
        let mut i: usize = 0;
        assert(hashes.take(0) =~= seq![]);
        assert(pending0 =~= pending0 + objects);
        assert(keep0 =~= keep0.union(kept));
        while i < tags.len()
            invariant
                i <= tags@.len(),
                hashes == pair_hashes(tags@),
                tag_roots(self@.manifests, hashes.take(i as int)) == Ok::<
                    (Seq<Seq<u8>>, Set<Seq<u8>>),
                    StoreFault,
                >((objects, kept)),
                digest_views(pending@) == pending0 + objects,
                keep@.dom() == keep0.union(kept),
            decreases tags@.len() - i,
        {
            assert(hashes.take(i + 1).drop_last() =~= hashes.take(i as int));
            let hash = tags[i].1;
            assert(hashes.take(i + 1).last() == hash@);
            match self.load_manifest(&hash) {
                Err(e) => {
                    proof {
                        lemma_tag_fault_stays(self@.manifests, hashes, i + 1);
                    }
                    return Err(e);
                },
                Ok(None) => {},
                Ok(Some(m)) => {
                    let refs = m.referenced_objects();
                    let ghost now = digest_views(pending@);
                    push_hashes(pending, &refs);
                    let ghost before = keep@.dom();
                    keep.insert(hash, ());
                    proof {
                        assert(digest_views(refs@) =~= contents(refs@));
                        let more = modules_objects(m@.modules);
                        assert(pending0 + (objects + more) =~= (pending0 + objects) + more);
                        assert(keep@.dom() =~= before.insert(hash@));
                        assert(before.insert(hash@) =~= keep0.union(kept.insert(hash@)));
                        objects = objects + more;
                        kept = kept.insert(hash@);
                    }
                },
            }
            i = i + 1;
        }
        assert(hashes.take(hashes.len() as int) =~= hashes);
        Ok(())
    }
}

// ── sweeping ────────────────────────────────────────────────────────────────

/// Without the files of objects that are not reachable.
pub open spec fn swept_objects(v: StoreView, keys: Seq<Digest>, reachable: Set<Seq<u8>>) -> StoreView
    decreases keys.len(),
{
    if keys.len() == 0 {
        v
    } else {
        let before = swept_objects(v, keys.drop_last(), reachable);
        let h = keys.last()@;
        if reachable.contains(h) {
            before
        } else {
            StoreView {
                objects: before.objects.remove(h),
                journal: before.journal.push(
                    ChangeView::Remove(hash_path(before.root, "objects"@, h)),
                ),
                ..before
            }
        }
    }
}

/// Without the files of manifests that are not kept.
pub open spec fn swept_manifests(v: StoreView, keys: Seq<Digest>, keep: Set<Seq<u8>>) -> StoreView
    decreases keys.len(),
{
    if keys.len() == 0 {
        v
    } else {
        let before = swept_manifests(v, keys.drop_last(), keep);
        let h = keys.last()@;
        if keep.contains(h) {
            before
        } else {
            StoreView {
                manifests: before.manifests.remove(h),
                journal: before.journal.push(
                    ChangeView::Remove(hash_path(before.root, "meta"@, h)),
                ),
                ..before
            }
        }
    }
}

/// How many of some hashes are not in a set, counted on from a number; the count
/// wraps.
pub open spec fn count_outside(start: usize, keys: Seq<Digest>, set: Set<Seq<u8>>) -> usize
    decreases keys.len(),
{
    if keys.len() == 0 {
        start
    } else {
        let before = count_outside(start, keys.drop_last(), set);
        if set.contains(keys.last()@) {
            before
        } else {
            before.wrapping_add(1)
        }
    }
}

impl DiskStore {
    /// Remove the files of objects that are not reachable.
    fn sweep_objects(&mut self, keys: &Vec<Digest>, reachable: &OrdMap<Digest, ()>) -> (r: usize)
        ensures
            final(self)@ == swept_objects(old(self)@, keys@, reachable@.dom()),
            r == count_outside(0, keys@, reachable@.dom()),
    {
        let ghost was = self@;
        let ghost set = reachable@.dom();
        let mut removed: usize = 0;
        let mut i: usize = 0;
        assert(keys@.take(0) =~= seq![]);
        while i < keys.len()
            invariant
                i <= keys@.len(),
                set == reachable@.dom(),
                self@ == swept_objects(was, keys@.take(i as int), set),
                removed == count_outside(0, keys@.take(i as int), set),
            decreases keys@.len() - i,
        {
            assert(keys@.take(i + 1).drop_last() =~= keys@.take(i as int));
            assert(keys@.take(i + 1).last() == keys@[i as int]);
            let ghost before = self@;
            let hash = keys[i];
            if !reachable.contains_key(&hash) {
                let path = self.object_path(&hash);
                self.journal.push(FileChange::Remove(path));
                self.objects.remove(&hash);
                assert(self@ =~= (StoreView {
                    objects: before.objects.remove(hash@),
                    journal: before.journal.push(
                        ChangeView::Remove(hash_path(before.root, "objects"@, hash@)),
                    ),
                    ..before
                }));
                removed = removed.wrapping_add(1);
            }
            i = i + 1;
        }
        assert(keys@.take(keys@.len() as int) =~= keys@);
        removed
    }

    /// Remove the files of manifests that are not kept.
    fn sweep_manifests(
        &mut self,
        keys: &Vec<Digest>,
        keep: &OrdMap<Digest, ()>,
        start: usize,
    ) -> (r: usize)
        ensures
            final(self)@ == swept_manifests(old(self)@, keys@, keep@.dom()),
            r == count_outside(start, keys@, keep@.dom()),
    {
        let ghost was = self@;
        let ghost set = keep@.dom();
        let mut removed: usize = start;
        let mut i: usize = 0;
        assert(keys@.take(0) =~= seq![]);
        while i < keys.len()
            invariant
                i <= keys@.len(),
                set == keep@.dom(),
                self@ == swept_manifests(was, keys@.take(i as int), set),
                removed == count_outside(start, keys@.take(i as int), set),
            decreases keys@.len() - i,
        {
            assert(keys@.take(i + 1).drop_last() =~= keys@.take(i as int));
            assert(keys@.take(i + 1).last() == keys@[i as int]);
            let ghost before = self@;
            let hash = keys[i];
            if !keep.contains_key(&hash) {
                let path = self.meta_path(&hash);
                self.journal.push(FileChange::Remove(path));
                self.manifests.remove(&hash);
                assert(self@ =~= (StoreView {
                    manifests: before.manifests.remove(hash@),
                    journal: before.journal.push(
                        ChangeView::Remove(hash_path(before.root, "meta"@, hash@)),
                    ),
                    ..before
                }));
                removed = removed.wrapping_add(1);
            }
            i = i + 1;
        }
        assert(keys@.take(keys@.len() as int) =~= keys@);
        removed
    }

    /// The hashes of the objects, redirects among them, in order.
    pub fn all_hashes(&self) -> (r: Vec<Digest>)
        ensures
            lists_keys(r@, self@.objects.dom()),
    {
        assert(self@.objects.dom() =~= self.objects@.dom());
        keys_of(&self.objects)
    }
}

/// Whether a collection did what it should: `r` is what it returned, `v` what
/// the store held before it and `w` after it.
pub open spec fn collected(
    v: StoreView,
    extra: Seq<Seq<u8>>,
    names: Seq<(String, Digest)>,
    pointers: Seq<(String, Digest)>,
    tags: Seq<(String, Digest)>,
    steps: nat,
    r: Result<usize, StoreFault>,
    w: StoreView,
) -> bool {
    match gc_roots(v, extra, names, pointers, tags) {
        Err(e) => r == Err::<usize, StoreFault>(e) && w == v,
        Ok((roots, keep)) => match mark_run(v.objects, mark_start(roots), steps) {
            None => false,
            Some(Err(e)) => r == Err::<usize, StoreFault>(e) && w == v,
            Some(Ok(reachable)) => exists|keys: Seq<Digest>, metas: Seq<Digest>| #[trigger]
                lists_keys(keys, v.objects.dom()) && #[trigger] lists_keys(
                    metas,
                    v.manifests.dom(),
                ) && r == Ok::<usize, StoreFault>(
                    count_outside(count_outside(0, keys, reachable), metas, keep),
                ) && w == swept_manifests(swept_objects(v, keys, reachable), metas, keep),
        },
    }
}

/// What a result says.
pub open spec fn result_view(r: Result<usize, DiskStoreError>) -> Result<usize, StoreFault> {
    match r {
        Ok(n) => Ok(n),
        Err(e) => Err(e@),
    }
}

/// The bindings of names, in order of names, as a list.
fn binding_list(names: &OrdMap<String, Digest>) -> (r: Vec<(String, Digest)>)
    ensures
        lists_names(hash_values(names@), r@),
        pair_hashes(r@) == pair_hashes(names.seq()),
{
    let items = names.items();
    let ghost entries = items@;
    let mut out: Vec<(String, Digest)> = Vec::new();
    let mut i: usize = 0;
    while i < items.len()
        invariant
            i <= items@.len(),
            entries == items@,
            out@.len() == i,
            forall|k: int|
                0 <= k < i ==> (#[trigger] out@[k]).0@ == entries[k].0@ && out@[k].1 == entries[k].1,
        decreases items@.len() - i,
    {
        out.push((crate::text::owned(items[i].0.as_str()), items[i].1));
        i = i + 1;
    }
    proof {
        lemma_same_entries(entries, out@);
        assert(pair_hashes(out@) =~= pair_hashes(entries));
    }
    out
}

/// Entries with the same keys and values make the same map.
proof fn lemma_same_entries(a: Seq<(String, Digest)>, b: Seq<(String, Digest)>)
    requires
        keys_increase(a),
        a.len() == b.len(),
        forall|k: int|
            0 <= k < a.len() ==> (#[trigger] b[k]).0@ == a[k].0@ && b[k].1 == a[k].1,
    ensures
        keys_increase(b),
        entries_map(a) == entries_map(b),
{
    assert(keys_increase(b)) by {
        assert forall|i: int, j: int| 0 <= i < j < b.len() implies crate::order::bytes_lt(
            String::order_bytes(#[trigger] b[i].0.model()),
            String::order_bytes(#[trigger] b[j].0.model()),
        ) by {
            assert(b[i].0.model() == a[i].0.model());
            assert(b[j].0.model() == a[j].0.model());
        }
    }
    assert forall|m: Seq<char>| entries_map(a).contains_key(m) <==> entries_map(b).contains_key(
        m,
    ) by {
        if crate::ordmap::has_key(a, m) {
            let i = crate::ordmap::key_position(a, m);
            assert(b[i].0.model() == m);
        }
        if crate::ordmap::has_key(b, m) {
            let i = crate::ordmap::key_position(b, m);
            assert(a[i].0.model() == m);
        }
    }
    assert forall|m: Seq<char>| entries_map(a).contains_key(m) implies entries_map(a)[m]
        == entries_map(b)[m] by {
        let i = crate::ordmap::key_position(a, m);
        assert(a[i].0.model() == m);
        assert(b[i].0.model() == m);
        crate::ordmap::entry_found(a, i);
        crate::ordmap::entry_found(b, i);
    }
    assert(entries_map(a) =~= entries_map(b));
}

impl DiskStore {
    /// Remove every object that is not reachable from what is to be kept, and
    /// every manifest that is neither current nor tagged. The result is how many
    /// files were removed.
    pub fn gc(&mut self, extra_roots: &Vec<Digest>) -> (r: Result<usize, DiskStoreError>)
        ensures
            match names_in(old(self)@.names) {
                Err(e) => r matches Err(x) && x@ == e && final(self)@ == old(self)@,
                Ok(ns) => exists|
                    names: Seq<(String, Digest)>,
                    pointers: Seq<(String, Digest)>,
                    tags: Seq<(String, Digest)>,
                    steps: nat,
                |
                    lists_names(ns, names) && lists_pointers(old(self)@.pointers, pointers)
                        && lists_tags(old(self)@.tags, tags) && #[trigger] collected(
                        old(self)@,
                        digest_views(extra_roots@),
                        names,
                        pointers,
                        tags,
                        steps,
                        result_view(r),
                        final(self)@,
                    ),
            },
    {
        let ghost v = self@;
        let ghost extra = digest_views(extra_roots@);
        let mut pending: Vec<Digest> = copy_digests(extra_roots);
        let bound = self.names()?;
        let names = binding_list(&bound);
        let mut i: usize = 0;
        let ghost nh = pair_hashes(names@);
        assert(extra =~= extra + nh.take(0));
        while i < names.len()
            invariant
                i <= names@.len(),
                nh == pair_hashes(names@),
                digest_views(pending@) == extra + nh.take(i as int),
            decreases names@.len() - i,
        {
            let ghost now = digest_views(pending@);
            pending.push(names[i].1);
            assert(digest_views(pending@) =~= now.push(nh[i as int]));
            i = i + 1;
            assert(digest_views(pending@) =~= extra + nh.take(i as int));
        }
        assert(nh.take(nh.len() as int) =~= nh);
        let pointers = self.snapshot_pointers();
        let mut keep: OrdMap<Digest, ()> = OrdMap::new();
        assert(keep@.dom() =~= Set::empty());
        let ghost (_, kept) = pointer_roots(v.manifests, pair_hashes(pointers@));
        self.add_pointer_roots(&pointers, &mut pending, &mut keep);
        assert(keep@.dom() =~= kept);
        let tags = self.list_tags();
        match self.add_tag_roots(&tags, &mut pending, &mut keep) {
            Err(e) => {
                assert(collected(
                    v,
                    extra,
                    names@,
                    pointers@,
                    tags@,
                    0,
                    Err::<usize, StoreFault>(e@),
                    self@,
                ));
                return Err(e);
            },
            Ok(_) => {},
        }
        let ghost roots = digest_views(pending@);
        let ghost keeping = keep@.dom();
        assert(gc_roots(v, extra, names@, pointers@, tags@) == Ok::<
            (Seq<Seq<u8>>, Set<Seq<u8>>),
            StoreFault,
        >((roots, keeping)));
        let reachable = match self.mark(pending) {
            Err(e) => {
                proof {
                    let steps = choose|steps: nat|
                        match #[trigger] mark_run(v.objects, mark_start(roots), steps) {
                            Some(Ok(_)) => false,
                            Some(Err(f)) => e@ == f,
                            None => false,
                        };
                    assert(collected(
                        v,
                        extra,
                        names@,
                        pointers@,
                        tags@,
                        steps,
                        Err::<usize, StoreFault>(e@),
                        self@,
                    ));
                }
                return Err(e);
            },
            Ok(m) => m,
        };
        let ghost steps = choose|steps: nat|
            match #[trigger] mark_run(v.objects, mark_start(roots), steps) {
                Some(Ok(s)) => reachable@.dom() == s,
                Some(Err(_)) => false,
                None => false,
            };
        let keys = self.all_hashes();
        let metas = self.all_manifest_hashes();
        let first = self.sweep_objects(&keys, &reachable);
        let removed = self.sweep_manifests(&metas, &keep, first);
        assert(lists_keys(keys@, v.objects.dom()) && lists_keys(metas@, v.manifests.dom()));
        assert(collected(
            v,
            extra,
            names@,
            pointers@,
            tags@,
            steps,
            Ok::<usize, StoreFault>(removed),
            self@,
        ));
        Ok(removed)
    }
}

// ── what a collection keeps ─────────────────────────────────────────────────

/// The functions that a hash stands for: those of its object, or of the group
/// that it redirects to; none where there is no such object, or it is not
/// intact.
pub open spec fn functions_behind(objects: Map<Seq<u8>, Seq<u8>>, h: Seq<u8>) -> Seq<
    (Seq<u8>, FunctionView),
> {
    let o = match object_at(objects, h) {
        Ok(Some(ObjectView::Redirect(t))) => object_at(objects, t.group),
        other => other,
    };
    match o {
        Ok(Some(o)) => match materialized(o) {
            Ok(fs) => fs,
            Err(_) => seq![],
        },
        _ => seq![],
    }
}

/// What a hash needs: what the functions that it stands for refer to.
pub open spec fn needs(objects: Map<Seq<u8>, Seq<u8>>, h: Seq<u8>, t: Seq<u8>) -> bool {
    targets(functions_behind(objects, h)).contains(t)
}

/// Whether redirects are in order: the members of a group stand for nothing but
/// the group, and a redirect points at no other redirect.
pub open spec fn redirects_in_order(objects: Map<Seq<u8>, Seq<u8>>) -> bool {
    &&& forall|h: Seq<u8>, i: int, t: Seq<u8>|
        0 <= i < functions_behind(objects, h).len() && #[trigger] needs(
            objects,
            functions_behind(objects, h)[i].0,
            t,
        ) ==> needs(objects, h, t)
    &&& forall|h: Seq<u8>|
        match #[trigger] object_at(objects, h) {
            Ok(Some(ObjectView::Redirect(t))) => match object_at(objects, t.group) {
                Ok(Some(ObjectView::Redirect(_))) => false,
                _ => true,
            },
            _ => true,
        }
}

/// Whether what is reachable needs only what is reachable or still to be looked
/// at, and so with the roots.
spec fn marked_so_far(
    objects: Map<Seq<u8>, Seq<u8>>,
    roots: Seq<Seq<u8>>,
    s: Marking,
) -> bool {
    &&& forall|h: Seq<u8>, t: Seq<u8>|
        s.reachable.contains(h) && #[trigger] needs(objects, h, t) ==> s.reachable.contains(t)
            || s.pending.contains(t)
    &&& forall|t: Seq<u8>| #[trigger]
        roots.contains(t) ==> s.reachable.contains(t) || s.pending.contains(t)
}

proof fn lemma_mark_step(
    objects: Map<Seq<u8>, Seq<u8>>,
    roots: Seq<Seq<u8>>,
    s: Marking,
)
    requires
        redirects_in_order(objects),
        marked_so_far(objects, roots, s),
        s.pending.len() > 0,
        mark_step(objects, s) is Ok,
    ensures
        marked_so_far(objects, roots, mark_step(objects, s)->Ok_0),
{
    let next = mark_step(objects, s)->Ok_0;
    let h = s.pending.last();
    let rest = s.pending.drop_last();
    let fs = functions_behind(objects, h);
    assert forall|t: Seq<u8>| s.reachable.contains(t) || s.pending.contains(
        t,
    ) implies #[trigger] next.reachable.contains(t) || next.pending.contains(t) by {
        if s.pending.contains(t) {
            let i = s.pending.index_of(t);
            if i < rest.len() {
                assert(next.pending[i] == t);
            }
        }
    }
    if !s.reachable.contains(h) {
        assert forall|t: Seq<u8>| #[trigger] needs(objects, h, t) implies next.pending.contains(
            t,
        ) by {
            let j = targets(fs).index_of(t);
            assert(next.pending[rest.len() + j] == t);
        }
        assert forall|x: Seq<u8>, t: Seq<u8>|
            next.reachable.contains(x) && #[trigger] needs(objects, x, t) implies next.reachable.contains(
            t,
        ) || next.pending.contains(t) by {
            if s.reachable.contains(x) {
                assert(next.reachable.contains(t) || next.pending.contains(t));
            } else if x == h {
            } else if hashes_of(fs).contains(x) {
                let i = choose|i: int| 0 <= i < fs.len() && (#[trigger] fs[i]).0 == x;
                assert(needs(objects, functions_behind(objects, h)[i].0, t));
                assert(needs(objects, h, t));
            } else {
                assert(object_at(objects, h) is Ok);
                let target = object_at(objects, h)->Ok_0->0->Redirect_0;
                assert(x == target.group);
                assert(functions_behind(objects, x) == fs);
                assert(needs(objects, h, t));
            }
        }
    }
}

proof fn lemma_mark_run(
    objects: Map<Seq<u8>, Seq<u8>>,
    roots: Seq<Seq<u8>>,
    s: Marking,
    steps: nat,
    reachable: Set<Seq<u8>>,
)
    requires
        redirects_in_order(objects),
        marked_so_far(objects, roots, s),
        mark_run(objects, s, steps) == Some(Ok::<Set<Seq<u8>>, StoreFault>(reachable)),
    ensures
        forall|t: Seq<u8>| #[trigger] roots.contains(t) ==> reachable.contains(t),
        forall|h: Seq<u8>, t: Seq<u8>|
            reachable.contains(h) && #[trigger] needs(objects, h, t) ==> reachable.contains(t),
    decreases steps,
{
    if s.pending.len() > 0 {
        lemma_mark_step(objects, roots, s);
        lemma_mark_run(
            objects,
            roots,
            mark_step(objects, s)->Ok_0,
            (steps - 1) as nat,
            reachable,
        );
    } else {
        assert(s.reachable == reachable);
        assert forall|t: Seq<u8>| !#[trigger] s.pending.contains(t) by {}
    }
}

/// What is marked holds the roots and, with whatever it holds, everything that
/// that needs, in a store whose redirects are in order.
pub proof fn marking_reaches_what_is_needed(
    objects: Map<Seq<u8>, Seq<u8>>,
    roots: Seq<Seq<u8>>,
    steps: nat,
    reachable: Set<Seq<u8>>,
)
    requires
        redirects_in_order(objects),
        mark_run(objects, mark_start(roots), steps) == Some(
            Ok::<Set<Seq<u8>>, StoreFault>(reachable),
        ),
    ensures
        forall|t: Seq<u8>| #[trigger] roots.contains(t) ==> reachable.contains(t),
        forall|h: Seq<u8>, t: Seq<u8>|
            reachable.contains(h) && #[trigger] needs(objects, h, t) ==> reachable.contains(t),
{
    lemma_mark_run(objects, roots, mark_start(roots), steps, reachable);
}

proof fn lemma_swept_objects(
    v: StoreView,
    keys: Seq<Digest>,
    reachable: Set<Seq<u8>>,
    h: Seq<u8>,
)
    ensures
        swept_objects(v, keys, reachable).objects.contains_key(h) <==> v.objects.contains_key(h)
            && (reachable.contains(h) || !digest_views(keys).contains(h)),
        swept_objects(v, keys, reachable).objects.contains_key(h) ==> swept_objects(
            v,
            keys,
            reachable,
        ).objects[h] == v.objects[h],
    decreases keys.len(),
{
    if keys.len() > 0 {
        let rest = keys.drop_last();
        lemma_swept_objects(v, rest, reachable, h);
        let all = digest_views(keys);
        let some = digest_views(rest);
        assert(all =~= some.push(keys.last()@));
        assert(all.contains(h) <==> some.contains(h) || h == keys.last()@) by {
            assert(all[all.len() - 1] == keys.last()@);
            if some.contains(h) {
                let i = some.index_of(h);
                assert(all[i] == h);
            }
            if all.contains(h) && h != keys.last()@ {
                let i = all.index_of(h);
                assert(some[i] == h);
            }
        }
    }
}

proof fn lemma_sweeping_manifests_keeps_objects(v: StoreView, keys: Seq<Digest>, keep: Set<Seq<u8>>)
    ensures
        swept_manifests(v, keys, keep).objects == v.objects,
        swept_manifests(v, keys, keep).names == v.names,
    decreases keys.len(),
{
    if keys.len() > 0 {
        lemma_sweeping_manifests_keeps_objects(v, keys.drop_last(), keep);
    }
}

/// A sweep leaves exactly the objects that are reachable, as they were.
pub proof fn sweeping_keeps_what_is_reachable(
    v: StoreView,
    keys: Seq<Digest>,
    metas: Seq<Digest>,
    reachable: Set<Seq<u8>>,
    keep: Set<Seq<u8>>,
    h: Seq<u8>,
)
    requires
        lists_keys(keys, v.objects.dom()),
    ensures
        ({
            let w = swept_manifests(swept_objects(v, keys, reachable), metas, keep);
            &&& w.objects.contains_key(h) <==> v.objects.contains_key(h) && reachable.contains(h)
            &&& reachable.contains(h) ==> object_at(w.objects, h) == object_at(v.objects, h)
            &&& w.objects.contains_key(h) ==> w.objects[h] == v.objects[h]
        }),
{
    lemma_swept_objects(v, keys, reachable, h);
    lemma_sweeping_manifests_keeps_objects(swept_objects(v, keys, reachable), metas, keep);
    if v.objects.contains_key(h) {
        assert(v.objects.dom().contains(h));
        let i = choose|i: int| 0 <= i < keys.len() && (#[trigger] keys[i])@ == h;
        assert(digest_views(keys)[i] == h);
    }
}

pub(crate) proof fn lemma_marks_stay(
    objects: Map<Seq<u8>, Seq<u8>>,
    s: Marking,
    steps: nat,
    reachable: Set<Seq<u8>>,
    t: Seq<u8>,
)
    requires
        mark_run(objects, s, steps) == Some(Ok::<Set<Seq<u8>>, StoreFault>(reachable)),
        s.reachable.contains(t) || s.pending.contains(t),
    ensures
        reachable.contains(t),
    decreases steps,
{
    if s.pending.len() > 0 {
        let next = mark_step(objects, s)->Ok_0;
        let rest = s.pending.drop_last();
        if s.pending.contains(t) {
            let i = s.pending.index_of(t);
            if i < rest.len() {
                assert(next.pending[i] == t);
            }
        }
        lemma_marks_stay(objects, next, (steps - 1) as nat, reachable, t);
    }
}

proof fn lemma_swept_manifests(v: StoreView, keys: Seq<Digest>, keep: Set<Seq<u8>>, h: Seq<u8>)
    requires
        keep.contains(h),
    ensures
        manifest_at(swept_manifests(v, keys, keep).manifests, h) == manifest_at(v.manifests, h),
    decreases keys.len(),
{
    if keys.len() > 0 {
        lemma_swept_manifests(v, keys.drop_last(), keep, h);
    }
}

pub(crate) proof fn lemma_sweeping_objects_keeps_manifests(
    v: StoreView,
    keys: Seq<Digest>,
    reachable: Set<Seq<u8>>,
)
    ensures
        swept_objects(v, keys, reachable).manifests == v.manifests,
    decreases keys.len(),
{
    if keys.len() > 0 {
        lemma_sweeping_objects_keeps_manifests(v, keys.drop_last(), reachable);
    }
}

/// A collection leaves what is to be kept as it was: every object to begin with,
/// and every manifest.
pub proof fn collection_keeps_its_roots(
    v: StoreView,
    extra: Seq<Seq<u8>>,
    names: Seq<(String, Digest)>,
    pointers: Seq<(String, Digest)>,
    tags: Seq<(String, Digest)>,
    steps: nat,
    n: usize,
    w: StoreView,
    h: Seq<u8>,
)
    requires
        collected(v, extra, names, pointers, tags, steps, Ok(n), w),
    ensures
        gc_roots(v, extra, names, pointers, tags) matches Ok((roots, keep)) && (roots.contains(h)
            ==> object_at(w.objects, h) == object_at(v.objects, h)) && (keep.contains(h)
            ==> manifest_at(w.manifests, h) == manifest_at(v.manifests, h)),
{
    let (roots, keep) = gc_roots(v, extra, names, pointers, tags)->Ok_0;
    let reachable = mark_run(v.objects, mark_start(roots), steps)->0->Ok_0;
    let (keys, metas) = choose|keys: Seq<Digest>, metas: Seq<Digest>| #[trigger]
        lists_keys(keys, v.objects.dom()) && #[trigger] lists_keys(metas, v.manifests.dom())
            && n == count_outside(count_outside(0, keys, reachable), metas, keep) && w
            == swept_manifests(swept_objects(v, keys, reachable), metas, keep);
    if roots.contains(h) {
        lemma_marks_stay(v.objects, mark_start(roots), steps, reachable, h);
        sweeping_keeps_what_is_reachable(v, keys, metas, reachable, keep, h);
    }
    if keep.contains(h) {
        lemma_swept_manifests(swept_objects(v, keys, reachable), metas, keep, h);
        lemma_sweeping_objects_keeps_manifests(v, keys, reachable);
    }
}

proof fn lemma_pointer_roots(
    manifests: Map<Seq<u8>, Seq<u8>>,
    hashes: Seq<Seq<u8>>,
    i: int,
    h: Seq<u8>,
)
    requires
        0 <= i < hashes.len(),
        sound_manifest(manifests, hashes[i]) is Some,
    ensures
        pointer_roots(manifests, hashes).1.contains(hashes[i]),
        modules_objects(sound_manifest(manifests, hashes[i])->0.modules).contains(h)
            ==> pointer_roots(manifests, hashes).0.contains(h),
    decreases hashes.len(),
{
    let rest = hashes.drop_last();
    let before = pointer_roots(manifests, rest).0;
    let all = pointer_roots(manifests, hashes).0;
    if i < rest.len() {
        lemma_pointer_roots(manifests, rest, i, h);
        if before.contains(h) {
            assert(all[before.index_of(h)] == h);
        }
    } else {
        let own = modules_objects(sound_manifest(manifests, hashes[i])->0.modules);
        if own.contains(h) {
            assert(all[before.len() + own.index_of(h)] == h);
        }
    }
}

/// Whether every hash of a path needs the next one.
pub open spec fn needs_along(objects: Map<Seq<u8>, Seq<u8>>, path: Seq<Seq<u8>>) -> bool {
    forall|i: int| #![trigger path[i]] 0 < i < path.len() ==> needs(objects, path[i - 1], path[i])
}

proof fn lemma_reached_along(
    objects: Map<Seq<u8>, Seq<u8>>,
    reachable: Set<Seq<u8>>,
    path: Seq<Seq<u8>>,
    i: int,
)
    requires
        needs_along(objects, path),
        0 <= i < path.len(),
        reachable.contains(path[0]),
        forall|h: Seq<u8>, t: Seq<u8>|
            reachable.contains(h) && #[trigger] needs(objects, h, t) ==> reachable.contains(t),
    ensures
        reachable.contains(path[i]),
    decreases i,
{
    if i > 0 {
        lemma_reached_along(objects, reachable, path, i - 1);
        assert(needs(objects, path[i - 1], path[i]));
    }
}

/// A collection leaves every object as it was that something to begin with
/// needs, itself or through others, in a store whose redirects are in order.
pub proof fn collection_keeps_what_is_needed(
    v: StoreView,
    extra: Seq<Seq<u8>>,
    names: Seq<(String, Digest)>,
    pointers: Seq<(String, Digest)>,
    tags: Seq<(String, Digest)>,
    steps: nat,
    n: usize,
    w: StoreView,
    path: Seq<Seq<u8>>,
)
    requires
        collected(v, extra, names, pointers, tags, steps, Ok(n), w),
        redirects_in_order(v.objects),
        path.len() > 0,
        needs_along(v.objects, path),
    ensures
        gc_roots(v, extra, names, pointers, tags) matches Ok((roots, _)) && (roots.contains(path[0])
            ==> object_at(w.objects, path.last()) == object_at(v.objects, path.last())),
{
    let (roots, keep) = gc_roots(v, extra, names, pointers, tags)->Ok_0;
    let reachable = mark_run(v.objects, mark_start(roots), steps)->0->Ok_0;
    let (keys, metas) = choose|keys: Seq<Digest>, metas: Seq<Digest>| #[trigger]
        lists_keys(keys, v.objects.dom()) && #[trigger] lists_keys(metas, v.manifests.dom())
            && n == count_outside(count_outside(0, keys, reachable), metas, keep) && w
            == swept_manifests(swept_objects(v, keys, reachable), metas, keep);
    if roots.contains(path[0]) {
        marking_reaches_what_is_needed(v.objects, roots, steps, reachable);
        lemma_reached_along(v.objects, reachable, path, path.len() - 1);
        sweeping_keeps_what_is_reachable(v, keys, metas, reachable, keep, path.last());
    }
}

/// After a collection the current snapshot of every package can be loaded as
/// before, and every object that it refers to is as it was; so is, in a store
/// whose redirects are in order, every object that these need, themselves or
/// through others.
pub proof fn collection_keeps_current_snapshots(
    v: StoreView,
    extra: Seq<Seq<u8>>,
    names: Seq<(String, Digest)>,
    pointers: Seq<(String, Digest)>,
    tags: Seq<(String, Digest)>,
    steps: nat,
    n: usize,
    w: StoreView,
    i: int,
    m: ManifestView,
    path: Seq<Seq<u8>>,
)
    requires
        collected(v, extra, names, pointers, tags, steps, Ok(n), w),
        0 <= i < pointers.len(),
        sound_manifest(v.manifests, pointers[i].1@) == Some(m),
    ensures
        sound_manifest(w.manifests, pointers[i].1@) == Some(m),
        path.len() > 0 && modules_objects(m.modules).contains(path[0]) ==> object_at(
            w.objects,
            path[0],
        ) == object_at(v.objects, path[0]) && (needs_along(v.objects, path) && redirects_in_order(
            v.objects,
        ) ==> object_at(w.objects, path.last()) == object_at(v.objects, path.last())),
{
    let h = path[0];
    let hashes = pair_hashes(pointers);
    assert(hashes[i] == pointers[i].1@);
    lemma_pointer_roots(v.manifests, hashes, i, h);
    collection_keeps_its_roots(v, extra, names, pointers, tags, steps, n, w, hashes[i]);
    collection_keeps_its_roots(v, extra, names, pointers, tags, steps, n, w, h);
    let from = pointer_roots(v.manifests, hashes).0;
    let (roots, _) = gc_roots(v, extra, names, pointers, tags)->Ok_0;
    let bound = extra + pair_hashes(names);
    if path.len() > 0 && modules_objects(m.modules).contains(h) {
        assert(roots[bound.len() + from.index_of(h)] == h);
        if needs_along(v.objects, path) && redirects_in_order(v.objects) {
            collection_keeps_what_is_needed(v, extra, names, pointers, tags, steps, n, w, path);
        }
    }
}

proof fn lemma_tag_roots(
    manifests: Map<Seq<u8>, Seq<u8>>,
    hashes: Seq<Seq<u8>>,
    i: int,
    m: ManifestView,
    h: Seq<u8>,
)
    requires
        0 <= i < hashes.len(),
        tag_roots(manifests, hashes) is Ok,
        manifest_at(manifests, hashes[i]) == Ok::<Option<ManifestView>, StoreFault>(Some(m)),
    ensures
        tag_roots(manifests, hashes)->Ok_0.1.contains(hashes[i]),
        modules_objects(m.modules).contains(h) ==> tag_roots(manifests, hashes)->Ok_0.0.contains(h),
    decreases hashes.len(),
{
    let rest = hashes.drop_last();
    let before = tag_roots(manifests, rest)->Ok_0.0;
    let all = tag_roots(manifests, hashes)->Ok_0.0;
    if i < rest.len() {
        lemma_tag_roots(manifests, rest, i, m, h);
        if before.contains(h) {
            assert(all[before.index_of(h)] == h);
        }
    } else {
        let own = modules_objects(m.modules);
        if own.contains(h) {
            assert(all[before.len() + own.index_of(h)] == h);
        }
    }
}

/// A tagged snapshot survives a collection as a current one does: it can be
/// loaded as before, every object that it refers to is as it was, and so is, in
/// a store whose redirects are in order, every object that these need.
pub proof fn collection_keeps_tagged_snapshots(
    v: StoreView,
    extra: Seq<Seq<u8>>,
    names: Seq<(String, Digest)>,
    pointers: Seq<(String, Digest)>,
    tags: Seq<(String, Digest)>,
    steps: nat,
    n: usize,
    w: StoreView,
    i: int,
    m: ManifestView,
    path: Seq<Seq<u8>>,
)
    requires
        collected(v, extra, names, pointers, tags, steps, Ok(n), w),
        0 <= i < tags.len(),
        manifest_at(v.manifests, tags[i].1@) == Ok::<Option<ManifestView>, StoreFault>(Some(m)),
    ensures
        manifest_at(w.manifests, tags[i].1@) == Ok::<Option<ManifestView>, StoreFault>(Some(m)),
        path.len() > 0 && modules_objects(m.modules).contains(path[0]) ==> object_at(
            w.objects,
            path[0],
        ) == object_at(v.objects, path[0]) && (needs_along(v.objects, path) && redirects_in_order(
            v.objects,
        ) ==> object_at(w.objects, path.last()) == object_at(v.objects, path.last())),
{
    let h = path[0];
    let hashes = pair_hashes(tags);
    assert(hashes[i] == tags[i].1@);
    lemma_tag_roots(v.manifests, hashes, i, m, h);
    collection_keeps_its_roots(v, extra, names, pointers, tags, steps, n, w, hashes[i]);
    collection_keeps_its_roots(v, extra, names, pointers, tags, steps, n, w, h);
    let from = tag_roots(v.manifests, hashes)->Ok_0.0;
    let (roots, _) = gc_roots(v, extra, names, pointers, tags)->Ok_0;
    let before = extra + pair_hashes(names) + pointer_roots(v.manifests, pair_hashes(pointers)).0;
    if path.len() > 0 && modules_objects(m.modules).contains(h) {
        assert(roots[before.len() + from.index_of(h)] == h);
        if needs_along(v.objects, path) && redirects_in_order(v.objects) {
            collection_keeps_what_is_needed(v, extra, names, pointers, tags, steps, n, w, path);
        }
    }
}

pub(crate) proof fn lemma_sweeping_keeps_the_rest(
    v: StoreView,
    keys: Seq<Digest>,
    metas: Seq<Digest>,
    reachable: Set<Seq<u8>>,
    keep: Set<Seq<u8>>,
)
    ensures
        ({
            let w = swept_manifests(swept_objects(v, keys, reachable), metas, keep);
            &&& w.names == v.names
            &&& w.signatures == v.signatures
            &&& w.migrations == v.migrations
            &&& w.prelinks == v.prelinks
            &&& w.pointers == v.pointers
            &&& w.tags == v.tags
        }),
    decreases keys.len() + metas.len(),
{
    if metas.len() > 0 {
        lemma_sweeping_keeps_the_rest(v, keys, metas.drop_last(), reachable, keep);
    } else if keys.len() > 0 {
        lemma_sweeping_keeps_the_rest(v, keys.drop_last(), metas, reachable, keep);
    }
}

/// A collection touches nothing but objects and manifests: names, signatures,
/// migrations, pre-link forms, pointers and tags are as they were.
pub proof fn collection_keeps_the_rest(
    v: StoreView,
    extra: Seq<Seq<u8>>,
    names: Seq<(String, Digest)>,
    pointers: Seq<(String, Digest)>,
    tags: Seq<(String, Digest)>,
    steps: nat,
    r: Result<usize, StoreFault>,
    w: StoreView,
)
    requires
        collected(v, extra, names, pointers, tags, steps, r, w),
    ensures
        w.names == v.names,
        w.signatures == v.signatures,
        w.migrations == v.migrations,
        w.prelinks == v.prelinks,
        w.pointers == v.pointers,
        w.tags == v.tags,
{
    if let Ok((roots, keep)) = gc_roots(v, extra, names, pointers, tags) {
        if let Some(Ok(reachable)) = mark_run(v.objects, mark_start(roots), steps) {
            let (keys, metas) = choose|keys: Seq<Digest>, metas: Seq<Digest>| #[trigger]
                lists_keys(keys, v.objects.dom()) && #[trigger] lists_keys(
                    metas,
                    v.manifests.dom(),
                ) && r == Ok::<usize, StoreFault>(
                    count_outside(count_outside(0, keys, reachable), metas, keep),
                ) && w == swept_manifests(swept_objects(v, keys, reachable), metas, keep);
            lemma_sweeping_keeps_the_rest(v, keys, metas, reachable, keep);
        }
    }
}

} // verus!
