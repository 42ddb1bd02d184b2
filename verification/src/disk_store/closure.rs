//! Following references from object to object.

use vstd::prelude::*;

use crate::bytecode::{digest_views, function_targets, CompiledFunction, FunctionView};
use crate::digest::{hex_text, Digest};
use crate::disk_store::error::{DiskStoreError, StoreFault};
use crate::disk_store::objects::{object_at, DiskStore};
use crate::object::{function_pairs, materialized, ObjectView, StoredObject};
use crate::ordmap::{entries_map, has_key, key_position, Key, OrdMap};
use crate::store::{holds, with_functions, with_object, HeldView, Store};
use crate::text::{owned, push_text};
use crate::wire::Wire;

verus! {

broadcast use {vstd::string::group_string_axioms, vstd::array::group_array_axioms};

/// Everything that functions refer to by hash.
pub open spec fn targets(fs: Seq<(Seq<u8>, FunctionView)>) -> Seq<Seq<u8>>
    decreases fs.len(),
{
    if fs.len() == 0 {
        seq![]
    } else {
        targets(fs.drop_last()) + function_targets(fs.last().1)
    }
}

/// Append hashes.
pub fn push_hashes(out: &mut Vec<Digest>, hashes: &Vec<Digest>)
    ensures
        digest_views(final(out)@) == digest_views(old(out)@) + digest_views(hashes@),
{
    let ghost was = digest_views(out@);
    let ghost all = digest_views(hashes@);
    let mut i: usize = 0;
    assert(was + all.take(0) =~= was);
    while i < hashes.len()
        invariant
            i <= hashes@.len(),
            all == digest_views(hashes@),
            digest_views(out@) == was + all.take(i as int),
        decreases hashes@.len() - i,
    {
        let ghost now = digest_views(out@);
        out.push(hashes[i]);
        assert(digest_views(out@) =~= now.push(all[i as int]));
        i = i + 1;
        assert(digest_views(out@) =~= was + all.take(i as int));
    }
    assert(all.take(all.len() as int) =~= all);
}

/// Append everything that functions refer to by hash.
pub fn push_targets(out: &mut Vec<Digest>, fs: &Vec<(Digest, CompiledFunction)>)
    ensures
        digest_views(final(out)@) == digest_views(old(out)@) + targets(function_pairs(fs@)),
{
    let ghost was = digest_views(out@);
    let ghost all = function_pairs(fs@);
    let mut i: usize = 0;
    assert(all.take(0) =~= seq![]);
    assert(was + targets(all.take(0)) =~= was);
    while i < fs.len()
        invariant
            i <= fs@.len(),
            all == function_pairs(fs@),
            digest_views(out@) == was + targets(all.take(i as int)),
        decreases fs@.len() - i,
    {
        assert(all.take(i + 1).drop_last() =~= all.take(i as int));
        assert(all.take(i + 1).last() == all[i as int]);
        let refs = fs[i].1.referenced_hashes();
        push_hashes(out, &refs);
        i = i + 1;
        assert(digest_views(out@) =~= was + targets(all.take(i as int)));
    }
    assert(all.take(all.len() as int) =~= all);
}

/// A map that was put together entry by entry has finitely many keys.
pub proof fn entries_are_finite<K: Key, V>(entries: Seq<(K, V)>)
    ensures
        entries_map(entries).dom().finite(),
{
    let keys = Seq::new(entries.len(), |i: int| entries[i].0.model());
    vstd::seq_lib::seq_to_set_is_finite(keys);
    assert forall|m: K::M| entries_map(entries).dom().contains(m) implies keys.to_set().contains(
        m,
    ) by {
        let i = key_position(entries, m);
        assert(has_key(entries, m));
        assert(keys[i] == m);
    }
    vstd::set_lib::lemma_set_subset_finite(keys.to_set(), entries_map(entries).dom());
}

/// What is left of a set when a member is taken away is smaller.
proof fn lemma_fewer_left(all: Set<Seq<u8>>, seen: Set<Seq<u8>>, more: Set<Seq<u8>>, h: Seq<u8>)
    requires
        all.finite(),
        seen.subset_of(more),
        all.contains(h),
        !seen.contains(h),
        more.contains(h),
    ensures
        all.difference(more).len() < all.difference(seen).len(),
{
    vstd::set_lib::lemma_set_subset_finite(all, all.difference(seen));
    all.difference(more).lemma_subset_not_in_lt(all.difference(seen), h);
}

/// What is left of a set is not more when more is taken away.
proof fn lemma_no_more_left(all: Set<Seq<u8>>, seen: Set<Seq<u8>>, more: Set<Seq<u8>>)
    requires
        all.finite(),
        seen.subset_of(more),
    ensures
        all.difference(more).len() <= all.difference(seen).len(),
{
    vstd::set_lib::lemma_set_subset_finite(all, all.difference(seen));
    vstd::set_lib::lemma_len_subset(all.difference(more), all.difference(seen));
}

// ── loading ─────────────────────────────────────────────────────────────────

/// How far loading has come.
pub struct Loading {
    /// The hashes that are still to be looked at, the next one last.
    pub pending: Seq<Seq<u8>>,
    /// The hashes that were looked at.
    pub visited: Set<Seq<u8>>,
    /// What was loaded.
    pub held: HeldView,
    /// How many functions were loaded; the count wraps.
    pub loaded: usize,
}

/// The text of the error for an object that is not there.
pub open spec fn missing_object_text(h: Seq<u8>) -> Seq<char> {
    "missing object for "@ + hex_text(h)
}

/// The text of the error for a group that is not there.
pub open spec fn missing_group_text(group: Seq<u8>, h: Seq<u8>) -> Seq<char> {
    "missing group "@ + hex_text(group) + " for member "@ + hex_text(h)
}

/// The object to be loaded for a hash: that under the hash, or the group that it
/// redirects to.
pub open spec fn object_to_load(objects: Map<Seq<u8>, Seq<u8>>, h: Seq<u8>) -> Result<
    ObjectView,
    StoreFault,
> {
    match object_at(objects, h) {
        Err(e) => Err(e),
        Ok(None) => Err(StoreFault::Io(missing_object_text(h))),
        Ok(Some(ObjectView::Redirect(t))) => match object_at(objects, t.group) {
            Err(e) => Err(e),
            Ok(None) => Err(StoreFault::Io(missing_group_text(t.group, h))),
            Ok(Some(g)) => Ok(g),
        },
        Ok(Some(o)) => Ok(o),
    }
}

/// Look at the next hash: unless it was looked at or is held already, load its
/// object, and note what the object's functions refer to.
pub open spec fn load_step(objects: Map<Seq<u8>, Seq<u8>>, s: Loading) -> Result<
    Loading,
    StoreFault,
> {
    let h = s.pending.last();
    let rest = Loading { pending: s.pending.drop_last(), visited: s.visited.insert(h), ..s };
    if s.visited.contains(h) || holds(s.held, h) {
        Ok(rest)
    } else {
        match object_to_load(objects, h) {
            Err(e) => Err(e),
            Ok(o) => match materialized(o) {
                Err(error) => Err(StoreFault::Object { hash: h, error }),
                Ok(fs) => match with_object(s.held, o) {
                    Err(_) => Err(StoreFault::Io("object rejected by store"@)),
                    Ok(held) => Ok(
                        Loading {
                            pending: rest.pending + targets(fs),
                            held,
                            loaded: s.loaded.wrapping_add(fs.len() as usize),
                            ..rest
                        },
                    ),
                },
            },
        }
    }
}

/// What loading comes to within a number of steps: how many functions were
/// loaded or what stopped it, and what is held then. `None` where it takes more
/// steps.
pub open spec fn load_run(objects: Map<Seq<u8>, Seq<u8>>, s: Loading, steps: nat) -> Option<
    (Result<usize, StoreFault>, HeldView),
>
    decreases steps,
{
    if s.pending.len() == 0 {
        Some((Ok(s.loaded), s.held))
    } else if steps == 0 {
        None
    } else {
        match load_step(objects, s) {
            Err(e) => Some((Err(e), s.held)),
            Ok(next) => load_run(objects, next, (steps - 1) as nat),
        }
    }
}

/// Where loading begins.
pub open spec fn load_start(root: Seq<u8>, held: HeldView) -> Loading {
    Loading { pending: seq![root], visited: Set::empty(), held, loaded: 0 }
}

/// Loading comes to one result, however many steps it is given.
pub proof fn loading_is_deterministic(
    objects: Map<Seq<u8>, Seq<u8>>,
    s: Loading,
    m: nat,
    n: nat,
)
    requires
        load_run(objects, s, m) is Some,
        load_run(objects, s, n) is Some,
    ensures
        load_run(objects, s, m) == load_run(objects, s, n),
    decreases m,
{
    if s.pending.len() > 0 && m > 0 && n > 0 {
        if let Ok(next) = load_step(objects, s) {
            loading_is_deterministic(objects, next, (m - 1) as nat, (n - 1) as nat);
        }
    }
}

fn missing_object(hash: &Digest) -> (r: DiskStoreError)
    ensures
        r@ == StoreFault::Io(missing_object_text(hash@)),
{
    let mut text = owned("missing object for ");
    push_text(&mut text, hash.to_hex().as_str());
    DiskStoreError::Io(text)
}

fn missing_group(group: &Digest, hash: &Digest) -> (r: DiskStoreError)
    ensures
        r@ == StoreFault::Io(missing_group_text(group@, hash@)),
{
    let mut text = owned("missing group ");
    push_text(&mut text, group.to_hex().as_str());
    push_text(&mut text, " for member ");
    push_text(&mut text, hash.to_hex().as_str());
    DiskStoreError::Io(text)
}

impl DiskStore {
    /// The object to be loaded for a hash.
    fn object_for(&self, hash: &Digest) -> (r: Result<StoredObject, DiskStoreError>)
        ensures
            match object_to_load(self@.objects, hash@) {
                Ok(o) => r matches Ok(x) && x.content() == o,
                Err(e) => r matches Err(x) && x@ == e,
            },
    {
        match self.get_object(hash)? {
            None => Err(missing_object(hash)),
            Some(StoredObject::Redirect(t)) => match self.get_object(&t.group)? {
                None => Err(missing_group(&t.group, hash)),
                Some(g) => Ok(g),
            },
            Some(o) => Ok(o),
        }
    }

    /// Load the function under a hash and everything that it refers to, directly
    /// or not. The result is how many functions were loaded; what is held
    /// already is not loaded again.
    pub fn load_closure(&self, root: &Digest, store: &mut Store) -> (r: Result<
        usize,
        DiskStoreError,
    >)
        ensures
            exists|steps: nat|
                match #[trigger] load_run(self@.objects, load_start(root@, old(store)@), steps) {
                    Some((Ok(n), held)) => r == Ok::<usize, DiskStoreError>(n) && final(store)@
                        == held,
                    Some((Err(e), held)) => r matches Err(x) && x@ == e && final(store)@ == held,
                    None => false,
                },
    {
        let ghost objects = self@.objects;
        let ghost start = load_start(root@, store@);
        let mut pending: Vec<Digest> = Vec::new();
        pending.push(*root);
        let mut visited: OrdMap<Digest, ()> = OrdMap::new();
        let mut loaded: usize = 0;
        let listed = self.objects.items();
        let ghost mut taken: nat = 0;
        let ghost mut s = start;
        proof {
            assert(digest_views(pending@) =~= start.pending);
            assert(visited@.dom() =~= start.visited);
            entries_are_finite(listed@);
            assert(objects.dom() =~= self.objects@.dom());
        }
        while pending.len() > 0
            invariant
                objects == self@.objects,
                start == load_start(root@, old(store)@),
                objects.dom().finite(),
                s.pending == digest_views(pending@),
                s.visited == visited@.dom(),
                s.held == store@,
                s.loaded == loaded,
                forall|n: nat| #[trigger]
                    load_run(objects, s, n) == load_run(objects, start, taken + n),
            decreases objects.dom().difference(s.visited).len(), pending@.len(),
        {
            let ghost before = s;
            let hash = pending[pending.len() - 1];
            let _ = pending.pop();
            assert(hash@ == before.pending.last());
            assert(digest_views(pending@) =~= before.pending.drop_last());
            let seen = visited.contains_key(&hash);
            visited.insert(hash, ());
            assert(visited@.dom() =~= before.visited.insert(hash@));
            proof {
                lemma_no_more_left(objects.dom(), before.visited, visited@.dom());
            }
            if seen || store.contains(&hash) {
                proof {
                    s = load_step(objects, before)->Ok_0;
                    assert forall|n: nat| #[trigger]
                        load_run(objects, s, n) == load_run(objects, start, taken + 1 + n) by {
                        assert(load_run(objects, before, n + 1) == load_run(
                            objects,
                            start,
                            taken + (n + 1),
                        ));
                    }
                    taken = taken + 1;
                }
                continue;
            }
            assert(load_run(objects, before, 1) == load_run(objects, start, taken + 1));
            let object = match self.object_for(&hash) {
                Err(e) => {
                    assert(load_run(objects, start, taken + 1) is Some);
                    return Err(e);
                },
                Ok(o) => o,
            };
            let ghost o = object.content();
            let fs = match object.materialize() {
                Err(error) => {
                    assert(load_run(objects, start, taken + 1) is Some);
                    return Err(DiskStoreError::Object { hash, error });
                },
                Ok(fs) => fs,
            };
            push_targets(&mut pending, &fs);
            loaded = loaded.wrapping_add(fs.len());
            match store.add_object(object) {
                Err(_) => {
                    assert(load_run(objects, start, taken + 1) is Some);
                    return Err(DiskStoreError::Io(owned("object rejected by store")));
                },
                Ok(_) => {},
            }
            proof {
                assert(objects.contains_key(hash@));
                lemma_fewer_left(objects.dom(), before.visited, visited@.dom(), hash@);
                s = load_step(objects, before)->Ok_0;
                assert(function_pairs(fs@).len() == fs@.len());
                assert forall|n: nat| #[trigger]
                    load_run(objects, s, n) == load_run(objects, start, taken + 1 + n) by {
                    assert(load_run(objects, before, n + 1) == load_run(
                        objects,
                        start,
                        taken + (n + 1),
                    ));
                }
                taken = taken + 1;
            }
        }
        assert(load_run(objects, s, 0) == load_run(objects, start, taken + 0));
        assert(load_run(objects, start, taken) is Some);
        Ok(loaded)
    }
}

// ── what loading leaves behind ──────────────────────────────────────────────

/// Whether what a hash stands for is held: something under the hash itself, or
/// every function of the object that is loaded for it.
pub open spec fn provided(objects: Map<Seq<u8>, Seq<u8>>, held: HeldView, h: Seq<u8>) -> bool {
    holds(held, h) || (object_to_load(objects, h) is Ok && match materialized(
        object_to_load(objects, h)->Ok_0,
    ) {
        Ok(fs) => forall|i: int|
            0 <= i < fs.len() ==> held.functions.contains_key((#[trigger] fs[i]).0),
        Err(_) => false,
    })
}

/// Whether the function under a hash is as it was, or all that it refers to is
/// provided or still to be looked at.
pub open spec fn covered(
    objects: Map<Seq<u8>, Seq<u8>>,
    first: HeldView,
    s: Loading,
    k: Seq<u8>,
) -> bool {
    ||| first.functions.contains_key(k) && first.functions[k] == s.held.functions[k]
    ||| forall|t: Seq<u8>| #[trigger]
        function_targets(s.held.functions[k]).contains(t) ==> provided(objects, s.held, t)
            || s.pending.contains(t)
}

proof fn lemma_with_functions(
    m: Map<Seq<u8>, FunctionView>,
    fs: Seq<(Seq<u8>, FunctionView)>,
    k: Seq<u8>,
)
    ensures
        m.contains_key(k) ==> with_functions(m, fs).contains_key(k),
        forall|i: int|
            0 <= i < fs.len() ==> with_functions(m, fs).contains_key((#[trigger] fs[i]).0),
        with_functions(m, fs).contains_key(k) ==> (m.contains_key(k) && with_functions(m, fs)[k]
            == m[k]) || exists|i: int|
            0 <= i < fs.len() && (#[trigger] fs[i]).0 == k && fs[i].1 == with_functions(m, fs)[k],
    decreases fs.len(),
{
    if fs.len() > 0 {
        let rest = fs.drop_last();
        lemma_with_functions(m, rest, k);
        assert forall|i: int| 0 <= i < fs.len() implies with_functions(m, fs).contains_key(
            (#[trigger] fs[i]).0,
        ) by {
            if i < rest.len() {
                assert(rest[i] == fs[i]);
            }
        }
        let n = fs.len() - 1;
        if with_functions(m, fs).contains_key(k) {
            if fs.last().0 == k {
                assert(fs[n].0 == k);
            } else if !(m.contains_key(k) && with_functions(m, rest)[k] == m[k]) {
                let i = choose|i: int|
                    0 <= i < rest.len() && (#[trigger] rest[i]).0 == k && rest[i].1
                        == with_functions(m, rest)[k];
                assert(fs[i] == rest[i]);
            }
        }
    }
}

proof fn lemma_targets_hold(fs: Seq<(Seq<u8>, FunctionView)>, i: int, t: Seq<u8>)
    requires
        0 <= i < fs.len(),
        function_targets(fs[i].1).contains(t),
    ensures
        targets(fs).contains(t),
    decreases fs.len(),
{
    let rest = targets(fs.drop_last());
    let last = function_targets(fs.last().1);
    if i < fs.len() - 1 {
        lemma_targets_hold(fs.drop_last(), i, t);
        let j = rest.index_of(t);
        assert(targets(fs)[j] == t);
    } else {
        let j = last.index_of(t);
        assert(targets(fs)[rest.len() + j] == t);
    }
}

/// What is provided stays so when more is held.
proof fn lemma_provided_stays(
    objects: Map<Seq<u8>, Seq<u8>>,
    a: HeldView,
    b: HeldView,
    h: Seq<u8>,
)
    requires
        provided(objects, a, h),
        forall|k: Seq<u8>| a.functions.contains_key(k) ==> #[trigger] b.functions.contains_key(k),
        forall|k: Seq<u8>| a.leaves.contains_key(k) ==> #[trigger] b.leaves.contains_key(k),
    ensures
        provided(objects, b, h),
{
    if !holds(a, h) {
        let fs = materialized(object_to_load(objects, h)->Ok_0)->Ok_0;
        assert forall|i: int| 0 <= i < fs.len() implies b.functions.contains_key(
            (#[trigger] fs[i]).0,
        ) by {
            assert(a.functions.contains_key(fs[i].0));
        }
    }
}

/// Whether what was looked at is provided and every new function is covered.
spec fn on_track(objects: Map<Seq<u8>, Seq<u8>>, first: HeldView, root: Seq<u8>, s: Loading) -> bool {
    &&& forall|t: Seq<u8>| #[trigger] s.visited.contains(t) ==> provided(objects, s.held, t)
    &&& forall|k: Seq<u8>| #[trigger]
        s.held.functions.contains_key(k) ==> covered(objects, first, s, k)
    &&& provided(objects, s.held, root) || s.pending.contains(root)
}

proof fn lemma_step_keeps_on_track(
    objects: Map<Seq<u8>, Seq<u8>>,
    first: HeldView,
    root: Seq<u8>,
    s: Loading,
)
    requires
        on_track(objects, first, root, s),
        s.pending.len() > 0,
        load_step(objects, s) is Ok,
    ensures
        on_track(objects, first, root, load_step(objects, s)->Ok_0),
{
    let next = load_step(objects, s)->Ok_0;
    let h = s.pending.last();
    let rest = s.pending.drop_last();
    let looked = s.visited.contains(h) || holds(s.held, h);
    if !looked {
        let o = object_to_load(objects, h)->Ok_0;
        let fs = materialized(o)->Ok_0;
        assert forall|k: Seq<u8>| s.held.functions.contains_key(k) implies #[trigger]
            next.held.functions.contains_key(k) by {
            lemma_with_functions(s.held.functions, fs, k);
        }
        assert forall|k: Seq<u8>| s.held.leaves.contains_key(k) implies #[trigger]
            next.held.leaves.contains_key(k) by {}
        assert(provided(objects, next.held, h)) by {
            if o is Value || o is Native {
                assert(fs.len() == 0);
            } else {
                lemma_with_functions(s.held.functions, fs, h);
            }
        }
    } else {
        assert(provided(objects, next.held, h));
    }
    assert forall|t: Seq<u8>| provided(objects, s.held, t) implies #[trigger] provided(
        objects,
        next.held,
        t,
    ) by {
        lemma_provided_stays(objects, s.held, next.held, t);
    }
    assert forall|t: Seq<u8>| s.pending.contains(t) implies provided(objects, next.held, t)
        || #[trigger] next.pending.contains(t) by {
        let i = s.pending.index_of(t);
        if i < rest.len() {
            assert(next.pending[i] == t);
        }
    }
    assert forall|k: Seq<u8>| #[trigger] next.held.functions.contains_key(k) implies covered(
        objects,
        first,
        next,
        k,
    ) by {
        if looked || load_step(objects, s)->Ok_0.held.functions == s.held.functions {
            assert(s.held.functions.contains_key(k));
            assert(covered(objects, first, s, k));
        } else {
            let o = object_to_load(objects, h)->Ok_0;
            let fs = materialized(o)->Ok_0;
            lemma_with_functions(s.held.functions, fs, k);
            if s.held.functions.contains_key(k) && next.held.functions[k]
                == s.held.functions[k] {
                assert(covered(objects, first, s, k));
            } else {
                let i = choose|i: int|
                    0 <= i < fs.len() && (#[trigger] fs[i]).0 == k && fs[i].1
                        == next.held.functions[k];
                assert forall|t: Seq<u8>| #[trigger]
                    function_targets(next.held.functions[k]).contains(t) implies provided(
                    objects,
                    next.held,
                    t,
                ) || next.pending.contains(t) by {
                    lemma_targets_hold(fs, i, t);
                    let j = targets(fs).index_of(t);
                    assert(next.pending[rest.len() + j] == t);
                }
            }
        }
    }
}

proof fn lemma_run_ends_on_track(
    objects: Map<Seq<u8>, Seq<u8>>,
    first: HeldView,
    root: Seq<u8>,
    s: Loading,
    steps: nat,
    held: HeldView,
    n: usize,
)
    requires
        on_track(objects, first, root, s),
        load_run(objects, s, steps) == Some((Ok::<usize, StoreFault>(n), held)),
    ensures
        provided(objects, held, root),
        forall|k: Seq<u8>, t: Seq<u8>|
            held.functions.contains_key(k) && !(first.functions.contains_key(k)
                && first.functions[k] == held.functions[k]) && #[trigger] function_targets(
                held.functions[k],
            ).contains(t) ==> provided(objects, held, t),
    decreases steps,
{
    if s.pending.len() == 0 {
        assert forall|k: Seq<u8>, t: Seq<u8>|
            s.held.functions.contains_key(k) && !(first.functions.contains_key(k)
                && first.functions[k] == s.held.functions[k]) && #[trigger] function_targets(
                s.held.functions[k],
            ).contains(t) implies provided(objects, s.held, t) by {
            assert(covered(objects, first, s, k));
        }
    } else {
        lemma_step_keeps_on_track(objects, first, root, s);
        lemma_run_ends_on_track(
            objects,
            first,
            root,
            load_step(objects, s)->Ok_0,
            (steps - 1) as nat,
            held,
            n,
        );
    }
}

/// When loading succeeds, what was asked for is held, and so is everything that
/// a newly loaded function refers to.
pub proof fn loading_leaves_nothing_out(
    objects: Map<Seq<u8>, Seq<u8>>,
    first: HeldView,
    root: Seq<u8>,
    steps: nat,
    held: HeldView,
    n: usize,
)
    requires
        load_run(objects, load_start(root, first), steps) == Some((Ok::<usize, StoreFault>(n), held)),
    ensures
        provided(objects, held, root),
        forall|k: Seq<u8>, t: Seq<u8>|
            held.functions.contains_key(k) && !(first.functions.contains_key(k)
                && first.functions[k] == held.functions[k]) && #[trigger] function_targets(
                held.functions[k],
            ).contains(t) ==> provided(objects, held, t),
{
    let s = load_start(root, first);
    assert(s.pending[0] == root);
    lemma_run_ends_on_track(objects, first, root, s, steps, held, n);
}

} // verus!
