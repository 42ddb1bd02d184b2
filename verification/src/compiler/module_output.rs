//! What compiling a module yields.

use vstd::prelude::*;

use vstd::utf8::encode_utf8;

use crate::bytecode::{CompiledFunction, FunctionView};
use crate::compiler::assemble::text_map;
use crate::compiler::capture::{lemma_bound_text_entries, text_pairs};
use crate::compiler::prelink::{bind_texts, bound_texts, list_texts};
use crate::digest::Digest;
use crate::object::{
    function_pairs, materialized, object_hash, ObjectView, RedirectTarget, RedirectView,
    StoredObject,
};
use crate::order::text_before;
use crate::ordmap::{entries_map, entry_found, has_key, key_position, keys_increase, Key, OrdMap};
use crate::sorting::{single_ranks, sorted, stable_sort, Ranked};
use crate::store::Pack;
use crate::text::owned;
use crate::wire::{contents, ObjectFault, Wire};

verus! {

/// One statically named state migration: the cell, and the shapes it moves
/// from and to.
#[derive(Debug, PartialEq, Eq)]
pub struct MigrationRecord {
    /// The state cell.
    pub cell: String,
    /// The fingerprint of the old shape.
    pub old: String,
    /// The fingerprint of the new shape.
    pub new: String,
}

/// What a [`MigrationRecord`] says.
pub struct MigrationView {
    /// The state cell.
    pub cell: Seq<char>,
    /// The fingerprint of the old shape.
    pub old: Seq<char>,
    /// The fingerprint of the new shape.
    pub new: Seq<char>,
}

impl View for MigrationRecord {
    type V = MigrationView;

    open spec fn view(&self) -> MigrationView {
        MigrationView { cell: self.cell@, old: self.old@, new: self.new@ }
    }
}

/// What some migration records say.
pub open spec fn migration_views(ms: Seq<MigrationRecord>) -> Seq<MigrationView> {
    Seq::new(ms.len(), |i: int| ms[i]@)
}

/// A copy of some migrations.
pub fn copy_migrations(ms: &Vec<MigrationRecord>) -> (r: Vec<MigrationRecord>)
    ensures
        migration_views(r@) == migration_views(ms@),
{
    let mut out: Vec<MigrationRecord> = Vec::new();
    let mut i: usize = 0;
    while i < ms.len()
        invariant
            i <= ms@.len(),
            out@.len() == i,
            forall|k: int| 0 <= k < i ==> (#[trigger] out@[k])@ == ms@[k]@,
        decreases ms@.len() - i,
    {
        out.push(
            MigrationRecord {
                cell: owned(ms[i].cell.as_str()),
                old: owned(ms[i].old.as_str()),
                new: owned(ms[i].new.as_str()),
            },
        );
        i = i + 1;
    }
    assert(migration_views(out@) =~= migration_views(ms@));
    out
}

/// A compiled module.
#[derive(Debug)]
pub struct CompiledModule {
    /// The functions by their content hash.
    pub functions: OrdMap<Digest, CompiledFunction>,
    /// The hashes of the named functions.
    pub function_names: OrdMap<String, Digest>,
    /// The hashes of the constants.
    pub const_names: OrdMap<String, Digest>,
    /// For each lambda, the name of the function it stands in.
    pub lambda_parents: OrdMap<Digest, String>,
    /// The entry point, if there is one.
    pub entry_point: Option<Digest>,
    /// The stored objects by their hash.
    pub objects: OrdMap<Digest, StoredObject>,
    /// The canonical signatures of the names.
    pub signatures: OrdMap<String, String>,
    /// The state migrations.
    pub migrations: Vec<MigrationRecord>,
}

/// What the functions of a module say.
pub open spec fn function_map(m: Map<Seq<u8>, CompiledFunction>) -> Map<Seq<u8>, FunctionView> {
    m.map_values(|f: CompiledFunction| f@)
}

/// What the objects of a module say.
pub open spec fn object_map(m: Map<Seq<u8>, StoredObject>) -> Map<Seq<u8>, ObjectView> {
    m.map_values(|o: StoredObject| o.content())
}

/// The bytes of the hashes that names are bound to.
pub open spec fn name_map(m: Map<Seq<char>, Digest>) -> Map<Seq<char>, Seq<u8>> {
    m.map_values(|h: Digest| h@)
}

/// The characters of the names that hashes are bound to.
pub open spec fn parent_map(m: Map<Seq<u8>, String>) -> Map<Seq<u8>, Seq<char>> {
    m.map_values(|s: String| s@)
}

impl CompiledModule {
    /// An empty module.
    pub fn new() -> (r: CompiledModule)
        ensures
            r.functions@ == Map::<Seq<u8>, CompiledFunction>::empty(),
            r.function_names@ == Map::<Seq<char>, Digest>::empty(),
            r.const_names@ == Map::<Seq<char>, Digest>::empty(),
            r.lambda_parents@ == Map::<Seq<u8>, String>::empty(),
            r.entry_point is None,
            r.objects@ == Map::<Seq<u8>, StoredObject>::empty(),
            r.signatures@ == Map::<Seq<char>, String>::empty(),
            r.migrations@ == Seq::<MigrationRecord>::empty(),
    {
        CompiledModule {
            functions: OrdMap::new(),
            function_names: OrdMap::new(),
            const_names: OrdMap::new(),
            lambda_parents: OrdMap::new(),
            entry_point: None,
            objects: OrdMap::new(),
            signatures: OrdMap::new(),
            migrations: Vec::new(),
        }
    }
}

/// A map with entries added whose keys it lacks.
pub open spec fn kept<A, B>(m: Map<A, B>, es: Seq<(A, B)>) -> Map<A, B>
    decreases es.len(),
{
    if es.len() == 0 {
        m
    } else {
        let before = kept(m, es.drop_last());
        if before.contains_key(es.last().0) {
            before
        } else {
            before.insert(es.last().0, es.last().1)
        }
    }
}

proof fn lemma_kept<A, B>(m: Map<A, B>, es: Seq<(A, B)>)
    requires
        forall|i: int, j: int| 0 <= i < j < es.len() ==> (#[trigger] es[i]).0 != (#[trigger] es[j]).0,
    ensures
        forall|k: A| #[trigger]
            kept(m, es).contains_key(k) <==> m.contains_key(k) || exists|i: int|
                0 <= i < es.len() && (#[trigger] es[i]).0 == k,
        forall|k: A| m.contains_key(k) ==> #[trigger] kept(m, es)[k] == m[k],
        forall|i: int|
            0 <= i < es.len() && !m.contains_key((#[trigger] es[i]).0) ==> kept(m, es)[es[i].0]
                == es[i].1,
    decreases es.len(),
{
    if es.len() > 0 {
        let t = es.drop_last();
        lemma_kept(m, t);
        let b = kept(m, t);
        let all = kept(m, es);
        assert forall|k: A| #[trigger] all.contains_key(k) <==> m.contains_key(k) || exists|i: int|
            0 <= i < es.len() && (#[trigger] es[i]).0 == k by {
            assert(b.contains_key(k) <==> m.contains_key(k) || exists|i: int|
                0 <= i < t.len() && (#[trigger] t[i]).0 == k);
            if exists|i: int| 0 <= i < t.len() && (#[trigger] t[i]).0 == k {
                let i = choose|i: int| 0 <= i < t.len() && (#[trigger] t[i]).0 == k;
                assert(es[i].0 == k);
            }
            assert(es[es.len() - 1].0 == es.last().0);
            if exists|i: int| 0 <= i < es.len() && (#[trigger] es[i]).0 == k {
                let i = choose|i: int| 0 <= i < es.len() && (#[trigger] es[i]).0 == k;
                if i < t.len() {
                    assert(t[i].0 == k);
                }
            }
        }
        assert forall|i: int|
            0 <= i < es.len() && !m.contains_key((#[trigger] es[i]).0) implies all[es[i].0]
            == es[i].1 by {
            if i < t.len() {
                assert(t[i] == es[i]);
                assert(es[i].0 != es[es.len() - 1].0);
            } else if b.contains_key(es.last().0) {
                let j = choose|j: int| 0 <= j < t.len() && (#[trigger] t[j]).0 == es.last().0;
                assert(es[j].0 == es[es.len() - 1].0);
                assert(false);
            }
        }
        assert forall|k: A| m.contains_key(k) implies #[trigger] all[k] == m[k] by {
            assert(b.contains_key(k));
        }
    }
}

/// Adding the entries of a map, where keys are lacking, is a union.
proof fn lemma_kept_union<K: Key, V, B>(
    m: Map<K::M, B>,
    entries: Seq<(K, V)>,
    f: spec_fn(V) -> B,
    es: Seq<(K::M, B)>,
)
    requires
        keys_increase(entries),
        es == Seq::new(entries.len(), |i: int| (entries[i].0.model(), f(entries[i].1))),
    ensures
        kept(m, es) == entries_map(entries).map_values(f).union_prefer_right(m),
{
    let o = entries_map(entries);
    assert forall|i: int, j: int| 0 <= i < j < es.len() implies (#[trigger] es[i]).0 != (
    #[trigger] es[j]).0 by {
        entry_found(entries, i);
        entry_found(entries, j);
    }
    lemma_kept(m, es);
    let want = o.map_values(f).union_prefer_right(m);
    assert forall|k: K::M| #[trigger] kept(m, es).contains_key(k) <==> want.contains_key(k) by {
        if o.contains_key(k) {
            let i = key_position(entries, k);
            assert(has_key(entries, k));
            assert(es[i].0 == k);
        }
        if exists|i: int| 0 <= i < es.len() && (#[trigger] es[i]).0 == k {
            let i = choose|i: int| 0 <= i < es.len() && (#[trigger] es[i]).0 == k;
            entry_found(entries, i);
        }
    }
    assert forall|k: K::M| #[trigger] kept(m, es).contains_key(k) implies kept(m, es)[k]
        == want[k] by {
        if !m.contains_key(k) {
            let i = choose|i: int| 0 <= i < es.len() && (#[trigger] es[i]).0 == k;
            entry_found(entries, i);
        }
    }
    assert(kept(m, es) =~= want);
}

impl CompiledModule {
    /// The function of a name.
    pub fn get_function(&self, name: &str) -> (r: Option<&CompiledFunction>)
        ensures
            r == (if self.function_names@.contains_key(name@) && self.functions@.contains_key(
                self.function_names@[name@]@,
            ) {
                Some(&self.functions@[self.function_names@[name@]@])
            } else {
                None
            }),
    {
        match self.function_names.get_text(name) {
            Some(hash) => self.functions.get(hash),
            None => None,
        }
    }

    /// The function of a hash.
    pub fn get_function_by_hash(&self, hash: &Digest) -> (r: Option<&CompiledFunction>)
        ensures
            r == (if self.functions@.contains_key(hash@) {
                Some(&self.functions@[hash@])
            } else {
                None
            }),
    {
        self.functions.get(hash)
    }

    /// Add what another module has and this one lacks. Where both bind a hash
    /// or a name, what this module binds it to stays; so does its entry point.
    pub fn merge(&mut self, other: &CompiledModule)
        ensures
            function_map(final(self).functions@) == function_map(
                other.functions@,
            ).union_prefer_right(function_map(old(self).functions@)),
            name_map(final(self).function_names@) == name_map(
                other.function_names@,
            ).union_prefer_right(name_map(old(self).function_names@)),
            name_map(final(self).const_names@) == name_map(other.const_names@).union_prefer_right(
                name_map(old(self).const_names@),
            ),
            parent_map(final(self).lambda_parents@) == parent_map(
                other.lambda_parents@,
            ).union_prefer_right(parent_map(old(self).lambda_parents@)),
            object_map(final(self).objects@) == object_map(other.objects@).union_prefer_right(
                object_map(old(self).objects@),
            ),
            final(self).entry_point == (if old(self).entry_point is Some {
                old(self).entry_point
            } else {
                other.entry_point
            }),
            final(self).signatures == old(self).signatures,
            final(self).migrations == old(self).migrations,
    {
        merge_functions(&mut self.functions, &other.functions);
        merge_names(&mut self.function_names, &other.function_names);
        merge_names(&mut self.const_names, &other.const_names);
        merge_parents(&mut self.lambda_parents, &other.lambda_parents);
        merge_objects(&mut self.objects, &other.objects);
        if self.entry_point.is_none() {
            self.entry_point = other.entry_point;
        }
    }
}

fn merge_functions(
    into: &mut OrdMap<Digest, CompiledFunction>,
    other: &OrdMap<Digest, CompiledFunction>,
)
    ensures
        function_map(final(into)@) == function_map(other@).union_prefer_right(
            function_map(old(into)@),
        ),
{
    let entries = other.items();
    let ghost start = function_map(into@);
    let ghost f = |f: CompiledFunction| f@;
    let ghost es = Seq::new(entries@.len(), |i: int| (entries@[i].0.model(), f(entries@[i].1)));
    let mut i: usize = 0;
    assert(es.take(0) =~= seq![]);
    while i < entries.len()
        invariant
            i <= entries@.len(),
            f == |f: CompiledFunction| f@,
            es == Seq::new(entries@.len(), |i: int| (entries@[i].0.model(), f(entries@[i].1))),
            function_map(into@) == kept(start, es.take(i as int)),
        decreases entries@.len() - i,
    {
        let ghost was = into@;
        assert(es.take(i + 1).drop_last() =~= es.take(i as int));
        let v = entries[i].1.copy();
        let ghost vv = v@;
        into.insert_if_absent(entries[i].0, v);
        i = i + 1;
        assert(function_map(into@) =~= kept(start, es.take(i as int)));
    }
    assert(es.take(entries@.len() as int) =~= es);
    proof {
        lemma_kept_union(start, entries@, f, es);
    }
}

fn merge_objects(into: &mut OrdMap<Digest, StoredObject>, other: &OrdMap<Digest, StoredObject>)
    ensures
        object_map(final(into)@) == object_map(other@).union_prefer_right(object_map(old(into)@)),
{
    let entries = other.items();
    let ghost start = object_map(into@);
    let ghost f = |o: StoredObject| o.content();
    let ghost es = Seq::new(entries@.len(), |i: int| (entries@[i].0.model(), f(entries@[i].1)));
    let mut i: usize = 0;
    assert(es.take(0) =~= seq![]);
    while i < entries.len()
        invariant
            i <= entries@.len(),
            f == |o: StoredObject| o.content(),
            es == Seq::new(entries@.len(), |i: int| (entries@[i].0.model(), f(entries@[i].1))),
            object_map(into@) == kept(start, es.take(i as int)),
        decreases entries@.len() - i,
    {
        assert(es.take(i + 1).drop_last() =~= es.take(i as int));
        into.insert_if_absent(entries[i].0, entries[i].1.copy());
        i = i + 1;
        assert(object_map(into@) =~= kept(start, es.take(i as int)));
    }
    assert(es.take(entries@.len() as int) =~= es);
    proof {
        lemma_kept_union(start, entries@, f, es);
    }
}

fn merge_names(into: &mut OrdMap<String, Digest>, other: &OrdMap<String, Digest>)
    ensures
        name_map(final(into)@) == name_map(other@).union_prefer_right(name_map(old(into)@)),
{
    let entries = other.items();
    let ghost start = name_map(into@);
    let ghost f = |h: Digest| h@;
    let ghost es = Seq::new(entries@.len(), |i: int| (entries@[i].0.model(), f(entries@[i].1)));
    let mut i: usize = 0;
    assert(es.take(0) =~= seq![]);
    while i < entries.len()
        invariant
            i <= entries@.len(),
            f == |h: Digest| h@,
            es == Seq::new(entries@.len(), |i: int| (entries@[i].0.model(), f(entries@[i].1))),
            name_map(into@) == kept(start, es.take(i as int)),
        decreases entries@.len() - i,
    {
        assert(es.take(i + 1).drop_last() =~= es.take(i as int));
        into.insert_if_absent(owned(entries[i].0.as_str()), entries[i].1);
        i = i + 1;
        assert(name_map(into@) =~= kept(start, es.take(i as int)));
    }
    assert(es.take(entries@.len() as int) =~= es);
    proof {
        lemma_kept_union(start, entries@, f, es);
    }
}

fn merge_parents(into: &mut OrdMap<Digest, String>, other: &OrdMap<Digest, String>)
    ensures
        parent_map(final(into)@) == parent_map(other@).union_prefer_right(parent_map(old(into)@)),
{
    let entries = other.items();
    let ghost start = parent_map(into@);
    let ghost f = |s: String| s@;
    let ghost es = Seq::new(entries@.len(), |i: int| (entries@[i].0.model(), f(entries@[i].1)));
    let mut i: usize = 0;
    assert(es.take(0) =~= seq![]);
    while i < entries.len()
        invariant
            i <= entries@.len(),
            f == |s: String| s@,
            es == Seq::new(entries@.len(), |i: int| (entries@[i].0.model(), f(entries@[i].1))),
            parent_map(into@) == kept(start, es.take(i as int)),
        decreases entries@.len() - i,
    {
        assert(es.take(i + 1).drop_last() =~= es.take(i as int));
        into.insert_if_absent(entries[i].0, owned(entries[i].1.as_str()));
        i = i + 1;
        assert(parent_map(into@) =~= kept(start, es.take(i as int)));
    }
    assert(es.take(entries@.len() as int) =~= es);
    proof {
        lemma_kept_union(start, entries@, f, es);
    }
}

// ── packs ───────────────────────────────────────────────────────────────────

impl Ranked for (String, Digest) {
    open spec fn rank(&self) -> Seq<Seq<u8>> {
        seq![encode_utf8(self.0@)]
    }

    fn ranks_before(&self, other: &Self) -> (r: bool) {
        proof {
            single_ranks(encode_utf8(self.0@), encode_utf8(other.0@));
        }
        text_before(self.0.as_str(), other.0.as_str())
    }
}

/// The contents of the entries that are no redirects.
pub open spec fn pack_objects(entries: Seq<(Digest, StoredObject)>) -> Seq<ObjectView>
    decreases entries.len(),
{
    if entries.len() == 0 {
        seq![]
    } else {
        let before = pack_objects(entries.drop_last());
        match entries.last().1.content() {
            ObjectView::Redirect(_) => before,
            o => before.push(o),
        }
    }
}

/// The functions of objects, each under its hash, behind others.
pub open spec fn with_functions(
    m: Map<Seq<u8>, FunctionView>,
    fs: Seq<(Seq<u8>, FunctionView)>,
) -> Map<Seq<u8>, FunctionView>
    decreases fs.len(),
{
    if fs.len() == 0 {
        m
    } else {
        with_functions(m, fs.drop_last()).insert(fs.last().0, fs.last().1)
    }
}

/// Whether an object is a group of several members.
pub open spec fn is_large_group(o: ObjectView) -> bool {
    match o {
        ObjectView::Group(ms) => ms.len() > 1,
        _ => false,
    }
}

/// Redirects from the members of a group to it, with others.
pub open spec fn with_redirects(
    m: Map<Seq<u8>, ObjectView>,
    group: Seq<u8>,
    fs: Seq<(Seq<u8>, FunctionView)>,
) -> Map<Seq<u8>, ObjectView>
    decreases fs.len(),
{
    if fs.len() == 0 {
        m
    } else {
        with_redirects(m, group, fs.drop_last()).insert(
            fs.last().0,
            ObjectView::Redirect(RedirectView { group, index: (fs.len() - 1) as u32 }),
        )
    }
}

/// The functions and objects that the objects of a pack stand for: each
/// function under its hash, each object under its hash, and a redirect under
/// the hash of each member of a group of several. Redirects in the pack are
/// passed over.
pub open spec fn unpacked(objects: Seq<ObjectView>) -> Result<
    (Map<Seq<u8>, FunctionView>, Map<Seq<u8>, ObjectView>),
    ObjectFault,
>
    decreases objects.len(),
{
    if objects.len() == 0 {
        Ok((Map::empty(), Map::empty()))
    } else {
        match unpacked(objects.drop_last()) {
            Err(e) => Err(e),
            Ok((functions, others)) => {
                let o = objects.last();
                if o is Redirect {
                    Ok((functions, others))
                } else {
                    match materialized(o) {
                        Err(e) => Err(e),
                        Ok(fs) => Ok(
                            (
                                with_functions(functions, fs),
                                (if is_large_group(o) {
                                    with_redirects(others, object_hash(o), fs)
                                } else {
                                    others
                                }).insert(object_hash(o), o),
                            ),
                        ),
                    }
                }
            },
        }
    }
}

/// Whether a hash is that of a constant's object.
pub open spec fn is_const_hash(objects: Map<Seq<u8>, ObjectView>, h: Seq<u8>) -> bool {
    objects.contains_key(h) && objects[h] is Value
}

/// The names of a pack that are bound to constants, or those that are not.
pub open spec fn routed(
    names: Seq<(String, Digest)>,
    objects: Map<Seq<u8>, ObjectView>,
    consts: bool,
) -> Map<Seq<char>, Seq<u8>>
    decreases names.len(),
{
    if names.len() == 0 {
        Map::empty()
    } else {
        let before = routed(names.drop_last(), objects, consts);
        if is_const_hash(objects, names.last().1@) == consts {
            before.insert(names.last().0@, names.last().1@)
        } else {
            before
        }
    }
}

proof fn lemma_unpack_fault_stays(objects: Seq<ObjectView>, k: int)
    requires
        0 <= k <= objects.len(),
        unpacked(objects.take(k)) is Err,
    ensures
        unpacked(objects) == unpacked(objects.take(k)),
    decreases objects.len() - k,
{
    if k < objects.len() {
        assert(objects.take(k + 1).drop_last() =~= objects.take(k));
        lemma_unpack_fault_stays(objects, k + 1);
    } else {
        assert(objects.take(k) =~= objects);
    }
}

impl CompiledModule {
    /// Everything the module needs to run in one piece: its objects in order of
    /// their hashes, without redirects, which follow from the groups; and the
    /// names of functions and constants in order. Signatures and migrations go
    /// along.
    pub fn to_pack(&self) -> (r: Pack)
        ensures
            r.entry_point == self.entry_point,
            r.names@ == sorted(self.function_names.seq() + self.const_names.seq()),
            contents(r.objects@) == pack_objects(self.objects.seq()),
            r.signatures@ == self.signatures.seq(),
            migration_views(r.migrations@) == migration_views(self.migrations@),
    {
        let mut names: Vec<(String, Digest)> = Vec::new();
        copy_names(&mut names, &self.function_names);
        copy_names(&mut names, &self.const_names);
        let names = stable_sort(names);
        let entries = self.objects.items();
        let mut objects: Vec<StoredObject> = Vec::new();
        let mut i: usize = 0;
        assert(entries@.take(0) =~= seq![]);
        assert(contents(objects@) =~= seq![]);
        while i < entries.len()
            invariant
                i <= entries@.len(),
                contents(objects@) == pack_objects(entries@.take(i as int)),
            decreases entries@.len() - i,
        {
            let ghost was = contents(objects@);
            assert(entries@.take(i + 1).drop_last() =~= entries@.take(i as int));
            match &entries[i].1 {
                StoredObject::Redirect(_) => {},
                o => {
                    let c = o.copy();
                    let ghost cv = c.content();
                    objects.push(c);
                    assert(contents(objects@) =~= was.push(cv));
                },
            }
            i = i + 1;
        }
        assert(entries@.take(entries@.len() as int) =~= entries@);
        Pack {
            entry_point: self.entry_point,
            names,
            objects,
            signatures: list_texts(&self.signatures),
            migrations: copy_migrations(&self.migrations),
        }
    }

    /// The module that a pack stands for. Every hash is computed anew from the
    /// contents, so a pack cannot bring code under a false hash.
    pub fn from_pack(pack: &Pack) -> (r: Result<CompiledModule, ObjectFault>)
        ensures
            match unpacked(contents(pack.objects@)) {
                Err(e) => r matches Err(f) && f == e,
                Ok((functions, objects)) => r matches Ok(m) && {
                    &&& function_map(m.functions@) == functions
                    &&& object_map(m.objects@) == objects
                    &&& name_map(m.const_names@) == routed(pack.names@, objects, true)
                    &&& name_map(m.function_names@) == routed(pack.names@, objects, false)
                    &&& m.entry_point == pack.entry_point
                    &&& m.lambda_parents@ == Map::<Seq<u8>, String>::empty()
                    &&& text_map(m.signatures@) == bound_texts(pack.signatures.content())
                    &&& migration_views(m.migrations@) == migration_views(pack.migrations@)
                },
            },
    {
        let mut m = CompiledModule::new();
        m.entry_point = pack.entry_point;
        let ghost all = contents(pack.objects@);
        let mut i: usize = 0;
        assert(all.take(0) =~= seq![]);
        assert(function_map(m.functions@) =~= Map::empty());
        assert(object_map(m.objects@) =~= Map::empty());
        while i < pack.objects.len()
            invariant
                i <= pack.objects@.len(),
                all == contents(pack.objects@),
                unpacked(all.take(i as int)) == Ok::<
                    (Map<Seq<u8>, FunctionView>, Map<Seq<u8>, ObjectView>),
                    ObjectFault,
                >((function_map(m.functions@), object_map(m.objects@))),
                m.function_names@ == Map::<Seq<char>, Digest>::empty(),
                m.const_names@ == Map::<Seq<char>, Digest>::empty(),
                m.lambda_parents@ == Map::<Seq<u8>, String>::empty(),
                m.entry_point == pack.entry_point,
            decreases pack.objects@.len() - i,
        {
            assert(all.take(i + 1).drop_last() =~= all.take(i as int));
            assert(all.take(i + 1).last() == pack.objects@[i as int].content());
            let object = &pack.objects[i];
            let is_redirect = match object {
                StoredObject::Redirect(_) => true,
                _ => false,
            };
            if !is_redirect {
                proof {
                    if unpacked(all.take(i + 1)) is Err {
                        lemma_unpack_fault_stays(all, i + 1);
                    }
                }
                add_object(&mut m.functions, &mut m.objects, object)?;
            }
            i = i + 1;
        }
        assert(all.take(pack.objects@.len() as int) =~= all);
        let ghost objects = object_map(m.objects@);
        let mut k: usize = 0;
        assert(pack.names@.take(0) =~= seq![]);
        assert(name_map(m.function_names@) =~= Map::empty());
        assert(name_map(m.const_names@) =~= Map::empty());
        while k < pack.names.len()
            invariant
                k <= pack.names@.len(),
                object_map(m.objects@) == objects,
                unpacked(contents(pack.objects@)) == Ok::<
                    (Map<Seq<u8>, FunctionView>, Map<Seq<u8>, ObjectView>),
                    ObjectFault,
                >((function_map(m.functions@), objects)),
                name_map(m.const_names@) == routed(pack.names@.take(k as int), objects, true),
                name_map(m.function_names@) == routed(pack.names@.take(k as int), objects, false),
                m.lambda_parents@ == Map::<Seq<u8>, String>::empty(),
                m.entry_point == pack.entry_point,
            decreases pack.names@.len() - k,
        {
            assert(pack.names@.take(k + 1).drop_last() =~= pack.names@.take(k as int));
            let name = owned(pack.names[k].0.as_str());
            let hash = pack.names[k].1;
            let is_const = match m.objects.get(&hash) {
                Some(StoredObject::Value(_)) => true,
                _ => false,
            };
            assert(is_const == is_const_hash(objects, hash@));
            if is_const {
                m.const_names.insert(name, hash);
            } else {
                m.function_names.insert(name, hash);
            }
            k = k + 1;
            assert(name_map(m.const_names@) =~= routed(pack.names@.take(k as int), objects, true));
            assert(name_map(m.function_names@) =~= routed(
                pack.names@.take(k as int),
                objects,
                false,
            ));
        }
        assert(pack.names@.take(pack.names@.len() as int) =~= pack.names@);
        m.signatures = bind_texts(&pack.signatures);
        m.migrations = copy_migrations(&pack.migrations);
        Ok(m)
    }
}

/// Put the entries of a map behind others.
fn copy_names(out: &mut Vec<(String, Digest)>, names: &OrdMap<String, Digest>)
    ensures
        final(out)@ == old(out)@ + names.seq(),
{
    let entries = names.items();
    let ghost start = out@;
    let mut i: usize = 0;
    while i < entries.len()
        invariant
            i <= entries@.len(),
            out@ == start + entries@.take(i as int),
        decreases entries@.len() - i,
    {
        let name = entries[i].0.clone();
        out.push((name, entries[i].1));
        i = i + 1;
        assert(out@ =~= start + entries@.take(i as int));
    }
    assert(out@ =~= start + entries@);
}

/// Add an object with its functions, and redirects to a group of several.
fn add_object(
    functions: &mut OrdMap<Digest, CompiledFunction>,
    objects: &mut OrdMap<Digest, StoredObject>,
    object: &StoredObject,
) -> (r: Result<(), ObjectFault>)
    ensures
        match materialized(object.content()) {
            Err(e) => r matches Err(f) && f == e,
            Ok(fs) => r is Ok && function_map(final(functions)@) == with_functions(
                function_map(old(functions)@),
                fs,
            ) && object_map(final(objects)@) == (if is_large_group(object.content()) {
                with_redirects(object_map(old(objects)@), object_hash(object.content()), fs)
            } else {
                object_map(old(objects)@)
            }).insert(object_hash(object.content()), object.content()),
        },
{
    let object_hash_value = object.hash();
    let loaded = object.materialize()?;
    let ghost fs = function_pairs(loaded@);
    let ghost f0 = function_map(functions@);
    let ghost o0 = object_map(objects@);
    let is_group = match object {
        StoredObject::Group(members) => members.len() > 1,
        _ => false,
    };
    assert(is_group == is_large_group(object.content()));
    let mut i: usize = 0;
    assert(fs.take(0) =~= seq![]);
    while i < loaded.len()
        invariant
            i <= loaded@.len(),
            fs == function_pairs(loaded@),
            object_hash_value@ == object_hash(object.content()),
            function_map(functions@) == with_functions(f0, fs.take(i as int)),
            object_map(objects@) == (if is_group {
                with_redirects(o0, object_hash(object.content()), fs.take(i as int))
            } else {
                o0
            }),
        decreases loaded@.len() - i,
    {
        assert(fs.take(i + 1).drop_last() =~= fs.take(i as int));
        let hash = loaded[i].0;
        if is_group {
            objects.insert(
                hash,
                StoredObject::Redirect(RedirectTarget { group: object_hash_value, index: i as u32 }),
            );
        }
        functions.insert(hash, loaded[i].1.copy());
        i = i + 1;
        assert(function_map(functions@) =~= with_functions(f0, fs.take(i as int)));
        assert(object_map(objects@) =~= (if is_group {
            with_redirects(o0, object_hash(object.content()), fs.take(i as int))
        } else {
            o0
        }));
    }
    assert(fs.take(loaded@.len() as int) =~= fs);
    let ghost o1 = object_map(objects@);
    let c = object.copy();
    objects.insert(object_hash_value, c);
    assert(object_map(objects@) =~= o1.insert(object_hash_value@, object.content()));
    Ok(())
}

// ── what a pack keeps ───────────────────────────────────────────────────────

/// Whether every object but redirects stands under its own hash and holds
/// functions without a fault, and the members of groups of several have
/// redirects.
pub open spec fn objects_coherent(objects: Map<Seq<u8>, ObjectView>) -> bool {
    forall|key: Seq<u8>| #[trigger]
        objects.contains_key(key) && !(objects[key] is Redirect) ==> {
            &&& key == object_hash(objects[key])
            &&& materialized(objects[key]) is Ok
            &&& is_large_group(objects[key]) ==> members_redirected(
                objects,
                materialized(objects[key])->Ok_0,
            )
        }
}

/// Whether there is a redirect under the hash of each of some functions.
pub open spec fn members_redirected(
    objects: Map<Seq<u8>, ObjectView>,
    fs: Seq<(Seq<u8>, FunctionView)>,
) -> bool {
    forall|i: int|
        0 <= i < fs.len() ==> objects.contains_key((#[trigger] fs[i]).0)
            && objects[fs[i].0] is Redirect
}

/// Whether the names of constants are bound to the objects of constants, and
/// those of functions are not.
pub open spec fn names_split(m: CompiledModule) -> bool {
    &&& forall|n: Seq<char>| #[trigger]
        m.const_names@.contains_key(n) ==> is_const_hash(
            object_map(m.objects@),
            m.const_names@[n]@,
        )
    &&& forall|n: Seq<char>| #[trigger]
        m.function_names@.contains_key(n) ==> !is_const_hash(
            object_map(m.objects@),
            m.function_names@[n]@,
        )
}

proof fn lemma_redirects(
    m: Map<Seq<u8>, ObjectView>,
    group: Seq<u8>,
    fs: Seq<(Seq<u8>, FunctionView)>,
    h: Seq<u8>,
)
    ensures
        is_const_hash(with_redirects(m, group, fs), h) ==> is_const_hash(m, h),
        (forall|i: int| 0 <= i < fs.len() ==> (#[trigger] fs[i]).0 != h) ==> is_const_hash(
            with_redirects(m, group, fs),
            h,
        ) == is_const_hash(m, h),
    decreases fs.len(),
{
    if fs.len() > 0 {
        lemma_redirects(m, group, fs.drop_last(), h);
        if forall|i: int| 0 <= i < fs.len() ==> (#[trigger] fs[i]).0 != h {
            assert forall|i: int| 0 <= i < fs.drop_last().len() implies (
            #[trigger] fs.drop_last()[i]).0 != h by {
                assert(fs[i].0 != h);
            }
            assert(fs[fs.len() - 1].0 != h);
        }
    }
}

/// Whether one of the first entries holds the object of a constant under a hash.
spec fn const_entry(entries: Seq<(Digest, StoredObject)>, k: int, h: Seq<u8>) -> bool {
    exists|i: int| 0 <= i < k && (#[trigger] entries[i]).0@ == h && entries[i].1.content() is Value
}

proof fn lemma_unpack_consts(entries: Seq<(Digest, StoredObject)>, k: int)
    requires
        keys_increase(entries),
        objects_coherent(object_map(entries_map(entries))),
        0 <= k <= entries.len(),
    ensures
        unpacked(pack_objects(entries.take(k))) is Ok,
        forall|h: Seq<u8>| #[trigger]
            is_const_hash(unpacked(pack_objects(entries.take(k)))->Ok_0.1, h) <==> const_entry(
                entries,
                k,
                h,
            ),
    decreases k,
{
    let objects = object_map(entries_map(entries));
    if k == 0 {
        assert(entries.take(0) =~= seq![]);
    } else {
        lemma_unpack_consts(entries, k - 1);
        assert(entries.take(k).drop_last() =~= entries.take(k - 1));
        let before = pack_objects(entries.take(k - 1));
        let key = entries[k - 1].0@;
        let o = entries[k - 1].1.content();
        entry_found(entries, k - 1);
        assert(objects.contains_key(key) && objects[key] == o);
        let u = unpacked(before)->Ok_0.1;
        if o is Redirect {
            assert forall|h: Seq<u8>| const_entry(entries, k, h) == const_entry(
                entries,
                k - 1,
                h,
            ) by {
                if const_entry(entries, k, h) {
                    let i = choose|i: int|
                        0 <= i < k && (#[trigger] entries[i]).0@ == h
                            && entries[i].1.content() is Value;
                    assert(i < k - 1);
                }
            }
        } else {
            assert(before.push(o).drop_last() =~= before);
            let fs = materialized(o)->Ok_0;
            let mid = if is_large_group(o) {
                with_redirects(u, object_hash(o), fs)
            } else {
                u
            };
            let now = mid.insert(key, o);
            assert(unpacked(before.push(o))->Ok_0.1 == now);
            assert forall|h: Seq<u8>| #[trigger] is_const_hash(now, h) <==> const_entry(
                entries,
                k,
                h,
            ) by {
                lemma_redirects(u, object_hash(o), fs, h);
                if h == key {
                    if o is Value {
                        assert(entries[k - 1].0@ == h);
                        assert(const_entry(entries, k, h));
                    }
                    if const_entry(entries, k, h) {
                        let i = choose|i: int|
                            0 <= i < k && (#[trigger] entries[i]).0@ == h
                                && entries[i].1.content() is Value;
                        entry_found(entries, i);
                        assert(entries[i].0.model() == entries[k - 1].0.model());
                        assert(i == k - 1);
                    }
                } else {
                    if const_entry(entries, k - 1, h) {
                        let i = choose|i: int|
                            0 <= i < k - 1 && (#[trigger] entries[i]).0@ == h
                                && entries[i].1.content() is Value;
                        entry_found(entries, i);
                        assert(objects.contains_key(h) && objects[h] is Value);
                        assert forall|j: int|
                            0 <= j < fs.len() && is_large_group(o) implies (#[trigger] fs[j]).0
                            != h by {}
                        assert(const_entry(entries, k, h));
                    }
                    if const_entry(entries, k, h) {
                        let i = choose|i: int|
                            0 <= i < k && (#[trigger] entries[i]).0@ == h
                                && entries[i].1.content() is Value;
                        assert(i < k - 1);
                        assert(const_entry(entries, k - 1, h));
                    }
                }
            }
        }
    }
}

proof fn lemma_routed(
    names: Seq<(String, Digest)>,
    objects: Map<Seq<u8>, ObjectView>,
    consts: bool,
)
    ensures
        forall|n: Seq<char>| #[trigger]
            routed(names, objects, consts).contains_key(n) <==> exists|i: int|
                0 <= i < names.len() && (#[trigger] names[i]).0@ == n && is_const_hash(
                    objects,
                    names[i].1@,
                ) == consts,
        forall|n: Seq<char>| #[trigger]
            routed(names, objects, consts).contains_key(n) ==> exists|i: int|
                0 <= i < names.len() && (#[trigger] names[i]).0@ == n && is_const_hash(
                    objects,
                    names[i].1@,
                ) == consts && routed(names, objects, consts)[n] == names[i].1@,
    decreases names.len(),
{
    if names.len() > 0 {
        let t = names.drop_last();
        lemma_routed(t, objects, consts);
        let b = routed(t, objects, consts);
        let all = routed(names, objects, consts);
        let last = names.len() - 1;
        assert(names[last] == names.last());
        assert forall|n: Seq<char>| #[trigger] all.contains_key(n) <==> exists|i: int|
            0 <= i < names.len() && (#[trigger] names[i]).0@ == n && is_const_hash(
                objects,
                names[i].1@,
            ) == consts by {
            if b.contains_key(n) {
                let i = choose|i: int|
                    0 <= i < t.len() && (#[trigger] t[i]).0@ == n && is_const_hash(
                        objects,
                        t[i].1@,
                    ) == consts;
                assert(names[i] == t[i]);
            }
            if exists|i: int|
                0 <= i < names.len() && (#[trigger] names[i]).0@ == n && is_const_hash(
                    objects,
                    names[i].1@,
                ) == consts {
                let i = choose|i: int|
                    0 <= i < names.len() && (#[trigger] names[i]).0@ == n && is_const_hash(
                        objects,
                        names[i].1@,
                    ) == consts;
                if i < last {
                    assert(t[i] == names[i]);
                    assert(b.contains_key(n));
                }
            }
        }
        assert forall|n: Seq<char>| #[trigger] all.contains_key(n) implies exists|i: int|
            0 <= i < names.len() && (#[trigger] names[i]).0@ == n && is_const_hash(
                objects,
                names[i].1@,
            ) == consts && all[n] == names[i].1@ by {
            if is_const_hash(objects, names[last].1@) == consts && names[last].0@ == n {
                assert(all[n] == names[last].1@);
            } else {
                assert(b.contains_key(n));
                let i = choose|i: int|
                    0 <= i < t.len() && (#[trigger] t[i]).0@ == n && is_const_hash(
                        objects,
                        t[i].1@,
                    ) == consts && b[n] == t[i].1@;
                assert(names[i] == t[i]);
            }
        }
    }
}

/// The names of the sorted list are those of the two tables.
proof fn lemma_sorted_names(f: Seq<(String, Digest)>, c: Seq<(String, Digest)>, x: (String, Digest))
    ensures
        sorted(f + c).contains(x) <==> f.contains(x) || c.contains(x),
{
    broadcast use vstd::seq_lib::group_to_multiset_ensures;

    crate::sorting::sorted_is_ranked(f + c);
    let all = f + c;
    assert(sorted(all).contains(x) <==> sorted(all).to_multiset().count(x) > 0);
    assert(all.contains(x) <==> all.to_multiset().count(x) > 0);
    if f.contains(x) {
        let i = f.index_of(x);
        assert(all[i] == x);
    }
    if c.contains(x) {
        let i = c.index_of(x);
        assert(all[f.len() + i] == x);
    }
    if all.contains(x) {
        let i = all.index_of(x);
        if i < f.len() {
            assert(f[i] == x);
        } else {
            assert(c[i - f.len()] == x);
        }
    }
}

proof fn lemma_routed_table(
    mine: Seq<(String, Digest)>,
    theirs: Seq<(String, Digest)>,
    names: Seq<(String, Digest)>,
    objects: Map<Seq<u8>, ObjectView>,
    consts: bool,
)
    requires
        keys_increase(mine),
        forall|x: (String, Digest)| #[trigger]
            names.contains(x) <==> mine.contains(x) || theirs.contains(x),
        forall|i: int|
            0 <= i < mine.len() ==> is_const_hash(objects, (#[trigger] mine[i]).1@) == consts,
        forall|i: int|
            0 <= i < theirs.len() ==> is_const_hash(objects, (#[trigger] theirs[i]).1@) != consts,
    ensures
        routed(names, objects, consts) == name_map(entries_map(mine)),
{
    lemma_routed(names, objects, consts);
    let r = routed(names, objects, consts);
    let want = name_map(entries_map(mine));
    assert forall|n: Seq<char>| #[trigger] r.contains_key(n) implies want.contains_key(n)
        && want[n] == r[n] by {
        let i = choose|i: int|
            0 <= i < names.len() && (#[trigger] names[i]).0@ == n && is_const_hash(
                objects,
                names[i].1@,
            ) == consts && r[n] == names[i].1@;
        assert(names.contains(names[i]));
        assert(mine.contains(names[i])) by {
            if theirs.contains(names[i]) {
                let t = theirs.index_of(names[i]);
                assert(theirs[t] == names[i]);
            }
        }
        let j = mine.index_of(names[i]);
        entry_found(mine, j);
    }
    assert forall|n: Seq<char>| #[trigger] want.contains_key(n) implies r.contains_key(n) by {
        let j = key_position(mine, n);
        assert(has_key(mine, n));
        assert(mine.contains(mine[j]));
        assert(names.contains(mine[j]));
        let i = names.index_of(mine[j]);
        assert(names[i].0@ == n);
    }
    assert(r =~= want);
}

/// A pack keeps apart what names functions and what names constants: the module
/// that the pack of a module stands for has the module's names, each bound to
/// the same hash and in the same table.
pub proof fn pack_keeps_names(
    m: CompiledModule,
    functions: Seq<(String, Digest)>,
    consts: Seq<(String, Digest)>,
    objects: Seq<(Digest, StoredObject)>,
    names: Seq<(String, Digest)>,
)
    requires
        keys_increase(functions) && m.function_names@ == entries_map(functions),
        keys_increase(consts) && m.const_names@ == entries_map(consts),
        keys_increase(objects) && m.objects@ == entries_map(objects),
        names == sorted(functions + consts),
        objects_coherent(object_map(m.objects@)),
        names_split(m),
    ensures
        unpacked(pack_objects(objects)) is Ok,
        routed(names, unpacked(pack_objects(objects))->Ok_0.1, false) == name_map(
            m.function_names@,
        ),
        routed(names, unpacked(pack_objects(objects))->Ok_0.1, true) == name_map(m.const_names@),
{
    let n = objects.len() as int;
    lemma_unpack_consts(objects, n);
    assert(objects.take(n) =~= objects);
    let u = unpacked(pack_objects(objects))->Ok_0.1;
    let o = object_map(m.objects@);
    assert forall|h: Seq<u8>| #[trigger] is_const_hash(u, h) == is_const_hash(o, h) by {
        if const_entry(objects, n, h) {
            let i = choose|i: int|
                0 <= i < n && (#[trigger] objects[i]).0@ == h && objects[i].1.content() is Value;
            entry_found(objects, i);
        }
        if is_const_hash(o, h) {
            let i = key_position(objects, h);
            assert(has_key(objects, h));
            assert(objects[i].0@ == h);
            assert(const_entry(objects, n, h));
        }
    }
    assert forall|i: int| 0 <= i < functions.len() implies !is_const_hash(
        u,
        (#[trigger] functions[i]).1@,
    ) by {
        entry_found(functions, i);
        assert(m.function_names@.contains_key(functions[i].0@));
    }
    assert forall|i: int| 0 <= i < consts.len() implies is_const_hash(
        u,
        (#[trigger] consts[i]).1@,
    ) by {
        entry_found(consts, i);
        assert(m.const_names@.contains_key(consts[i].0@));
    }
    assert forall|x: (String, Digest)| #[trigger] names.contains(x) <==> functions.contains(x)
        || consts.contains(x) by {
        lemma_sorted_names(functions, consts, x);
    }
    lemma_routed_table(functions, consts, names, u, false);
    assert forall|x: (String, Digest)| #[trigger] names.contains(x) <==> consts.contains(x)
        || functions.contains(x) by {
        lemma_sorted_names(functions, consts, x);
    }
    lemma_routed_table(consts, functions, names, u, true);
}

/// A pack keeps the signatures: what the pack of a module binds is the module's
/// signatures.
pub proof fn pack_keeps_signatures(
    m: CompiledModule,
    signatures: Seq<(String, String)>,
    pack: Pack,
)
    requires
        keys_increase(signatures) && m.signatures@ == entries_map(signatures),
        pack.signatures@ == signatures,
    ensures
        bound_texts(pack.signatures.content()) == text_map(m.signatures@),
{
    lemma_bound_text_entries(signatures);
    assert(pack.signatures.content() =~= text_pairs(signatures));
}

} // verus!
