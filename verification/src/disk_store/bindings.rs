//! The names that a store binds, their signatures, and the state migrations of
//! the latest build.

use vstd::prelude::*;
use vstd::utf8::encode_utf8;

use crate::compiler::module_output::{
    copy_migrations, migration_views, CompiledModule, MigrationRecord, MigrationView,
};
use crate::digest::Digest;
use crate::disk_store::error::{DiskStoreError, StoreFault};
use crate::disk_store::files::{join_path, path_join, ChangeView, FileChange};
use crate::disk_store::index::{
    hash_values, joined_lines, lemma_prefix_map, migration_lines,
    migrations_of_lines, migrations_read_back, name_entries_read_back, name_lines, names_of_lines, parse_migrations,
    parse_names, parse_signatures, plain_name, render_migrations, render_names,
    render_signatures, signature_entries_read_back, signature_lines, signatures_of_lines,
    text_values,
};
use crate::disk_store::objects::{text_bytes, with_object_file, DiskStore, StoreView};
use crate::object::StoredObject;
use crate::ordmap::{entries_map, keys_increase, OrdMap};
use crate::order::text_bytes_injective;
use crate::sorting::{
    mapping_keeps_permutation, ranks, ranks_lt, sorted, sorted_is_ranked, sorting_forgets_the_order,
    Ranked,
};
use crate::text::{opt_text, owned, text_lines};
use crate::wire::Wire;

verus! {

broadcast use {vstd::string::group_string_axioms, vstd::array::group_array_axioms};

// ── reading ─────────────────────────────────────────────────────────────────

/// The bindings that the file `names` states; none, where it is not there.
pub open spec fn names_in(content: Option<Seq<char>>) -> Result<
    Map<Seq<char>, Seq<u8>>,
    StoreFault,
> {
    match content {
        None => Ok(Map::empty()),
        Some(c) => match names_of_lines(text_lines(c)) {
            Ok(m) => Ok(m),
            Err(line) => Err(StoreFault::MalformedNames(line)),
        },
    }
}

/// The signatures that the file `signatures` states; none, where it is not
/// there.
pub open spec fn signatures_in(content: Option<Seq<char>>) -> Result<
    Map<Seq<char>, Seq<char>>,
    StoreFault,
> {
    match content {
        None => Ok(Map::empty()),
        Some(c) => match signatures_of_lines(text_lines(c)) {
            Ok(m) => Ok(m),
            Err(line) => Err(StoreFault::MalformedSignatures(line)),
        },
    }
}

/// The migrations that the file `migrations` states; none, where it is not
/// there.
pub open spec fn migrations_in(content: Option<Seq<char>>) -> Result<
    Seq<MigrationView>,
    StoreFault,
> {
    match content {
        None => Ok(seq![]),
        Some(c) => match migrations_of_lines(text_lines(c)) {
            Ok(ms) => Ok(ms),
            Err(line) => Err(StoreFault::MalformedMigrations(line)),
        },
    }
}

/// Names with their hashes and, where there is one, their signatures.
pub open spec fn joined_bindings(
    names: Map<Seq<char>, Seq<u8>>,
    signatures: Map<Seq<char>, Seq<char>>,
) -> Map<Seq<char>, (Seq<u8>, Option<Seq<char>>)> {
    Map::new(
        |n: Seq<char>| names.contains_key(n),
        |n: Seq<char>|
            (
                names[n],
                if signatures.contains_key(n) {
                    Some(signatures[n])
                } else {
                    None
                },
            ),
    )
}

/// What bindings say.
pub open spec fn bindings_view(m: Map<Seq<char>, (Digest, Option<String>)>) -> Map<
    Seq<char>,
    (Seq<u8>, Option<Seq<char>>),
> {
    m.map_values(
        |b: (Digest, Option<String>)|
            (b.0@, opt_text(b.1)),
    )
}

impl DiskStore {
    /// The names that the latest build bound, with their hashes.
    pub fn names(&self) -> (r: Result<OrdMap<String, Digest>, DiskStoreError>)
        ensures
            match names_in(self@.names) {
                Ok(m) => r matches Ok(x) && hash_values(x@) == m,
                Err(e) => r matches Err(x) && x@ == e,
            },
    {
        match &self.names {
            None => {
                let r: OrdMap<String, Digest> = OrdMap::new();
                assert(hash_values(r@) =~= Map::empty());
                Ok(r)
            },
            Some(c) => match parse_names(c.as_str()) {
                Ok(m) => Ok(m),
                Err(line) => Err(DiskStoreError::MalformedNames(line)),
            },
        }
    }

    /// The signatures of the names that the latest build bound. A name whose
    /// signature is not known has none.
    pub fn signatures(&self) -> (r: Result<OrdMap<String, String>, DiskStoreError>)
        ensures
            match signatures_in(self@.signatures) {
                Ok(m) => r matches Ok(x) && text_values(x@) == m,
                Err(e) => r matches Err(x) && x@ == e,
            },
    {
        match &self.signatures {
            None => {
                let r: OrdMap<String, String> = OrdMap::new();
                assert(text_values(r@) =~= Map::empty());
                Ok(r)
            },
            Some(c) => match parse_signatures(c.as_str()) {
                Ok(m) => Ok(m),
                Err(line) => Err(DiskStoreError::MalformedSignatures(line)),
            },
        }
    }

    /// The state migrations of the latest build.
    pub fn migrations(&self) -> (r: Result<Vec<MigrationRecord>, DiskStoreError>)
        ensures
            match migrations_in(self@.migrations) {
                Ok(ms) => r matches Ok(x) && migration_views(x@) == ms,
                Err(e) => r matches Err(x) && x@ == e,
            },
    {
        match &self.migrations {
            None => {
                let r: Vec<MigrationRecord> = Vec::new();
                assert(migration_views(r@) =~= seq![]);
                Ok(r)
            },
            Some(c) => match parse_migrations(c.as_str()) {
                Ok(m) => Ok(m),
                Err(line) => Err(DiskStoreError::MalformedMigrations(line)),
            },
        }
    }

    /// Every name with its hash and, where it is known, its signature.
    pub fn name_bindings(&self) -> (r: Result<
        OrdMap<String, (Digest, Option<String>)>,
        DiskStoreError,
    >)
        ensures
            match (names_in(self@.names), signatures_in(self@.signatures)) {
                (Err(e), _) => r matches Err(x) && x@ == e,
                (_, Err(e)) => r matches Err(x) && x@ == e,
                (Ok(ns), Ok(ss)) => r matches Ok(m) && bindings_view(m@) == joined_bindings(ns, ss),
            },
    {
        let names = self.names()?;
        let signatures = self.signatures()?;
        let ghost ss = text_values(signatures@);
        let items = names.items();
        let ghost entries = items@;
        let mut out: OrdMap<String, (Digest, Option<String>)> = OrdMap::new();
        let mut i: usize = 0;
        assert(entries_map(entries.take(0)) =~= Map::empty());
        assert(bindings_view(out@) =~= joined_bindings(
            hash_values(entries_map(entries.take(0))),
            ss,
        ));
        while i < items.len()
            invariant
                i <= items@.len(),
                entries == items@,
                keys_increase(entries),
                ss == text_values(signatures@),
                bindings_view(out@) == joined_bindings(
                    hash_values(entries_map(entries.take(i as int))),
                    ss,
                ),
            decreases items@.len() - i,
        {
            let ghost was = bindings_view(out@);
            let ghost before = hash_values(entries_map(entries.take(i as int)));
            let ghost key = entries[i as int].0@;
            let ghost hash = entries[i as int].1;
            let name = owned(items[i].0.as_str());
            let signature: Option<String> = match signatures.get(&name) {
                Some(s) => Some(owned(s.as_str())),
                None => None,
            };
            let ghost sig = opt_text(signature);
            assert(sig == (if ss.contains_key(key) {
                Some(ss[key])
            } else {
                None
            }));
            out.insert(name, (items[i].1, signature));
            proof {
                assert(bindings_view(out@) =~= was.insert(key, (hash@, sig)));
                lemma_prefix_map(entries, i + 1);
                let after = hash_values(entries_map(entries.take(i + 1)));
                assert(after =~= before.insert(key, hash@));
                assert(joined_bindings(after, ss) =~= joined_bindings(before, ss).insert(
                    key,
                    (hash@, sig),
                ));
            }
            i = i + 1;
        }
        assert(entries.take(entries.len() as int) =~= entries);
        Ok(out)
    }
}

// ── writing ─────────────────────────────────────────────────────────────────

/// With the file `names` replaced.
pub open spec fn with_names(v: StoreView, content: Seq<char>) -> StoreView {
    StoreView {
        names: Some(content),
        journal: v.journal.push(
            ChangeView::Write(path_join(v.root, "names"@), encode_utf8(content)),
        ),
        ..v
    }
}

/// With the file `signatures` replaced.
pub open spec fn with_signatures(v: StoreView, content: Seq<char>) -> StoreView {
    StoreView {
        signatures: Some(content),
        journal: v.journal.push(
            ChangeView::Write(path_join(v.root, "signatures"@), encode_utf8(content)),
        ),
        ..v
    }
}

/// With the file `migrations` replaced.
pub open spec fn with_migrations(v: StoreView, content: Seq<char>) -> StoreView {
    StoreView {
        migrations: Some(content),
        journal: v.journal.push(
            ChangeView::Write(path_join(v.root, "migrations"@), encode_utf8(content)),
        ),
        ..v
    }
}

/// What the file `migrations` holds for some migrations: a line for each, in
/// order of cell, old and new shape.
pub open spec fn renders_migrations(content: Seq<char>, ms: Seq<MigrationView>) -> bool {
    exists|rs: Seq<MigrationRecord>|
        migration_views(rs) == ms && content == joined_lines(
            migration_lines(migration_views(#[trigger] sorted(rs))),
        )
}

/// What the file `names` holds for some bindings: a line for each, in order of
/// names.
pub open spec fn renders_names(content: Seq<char>, names: Map<Seq<char>, Seq<u8>>) -> bool {
    exists|entries: Seq<(String, Digest)>|
        keys_increase(entries) && hash_values(entries_map(entries)) == names && content
            == joined_lines(#[trigger] name_lines(entries))
}

/// What the file `signatures` holds for some signatures: a line for each, in
/// order of names.
pub open spec fn renders_signatures(
    content: Seq<char>,
    signatures: Map<Seq<char>, Seq<char>>,
) -> bool {
    exists|entries: Seq<(String, String)>|
        keys_increase(entries) && text_values(entries_map(entries)) == signatures && content
            == joined_lines(#[trigger] signature_lines(entries))
}

impl DiskStore {
    /// Replace the names and their hashes.
    pub fn write_names(&mut self, names: &OrdMap<String, Digest>)
        ensures
            final(self)@.names is Some,
            renders_names(final(self)@.names->0, hash_values(names@)),
            final(self)@ == with_names(old(self)@, final(self)@.names->0),
    {
        let ghost was = self@;
        let content = render_names(names);
        let items = names.items();
        assert(content@ == joined_lines(name_lines(items@)));
        let path = join_path(self.root.as_str(), "names");
        self.journal.push(FileChange::Write(path, text_bytes(content.as_str())));
        let ghost text = content@;
        self.names = Some(content);
        assert(self@ =~= with_names(was, text));
    }

    /// Replace the signatures.
    pub fn write_signatures(&mut self, signatures: &OrdMap<String, String>)
        ensures
            final(self)@.signatures is Some,
            renders_signatures(final(self)@.signatures->0, text_values(signatures@)),
            final(self)@ == with_signatures(old(self)@, final(self)@.signatures->0),
    {
        let ghost was = self@;
        let content = render_signatures(signatures);
        let items = signatures.items();
        assert(content@ == joined_lines(signature_lines(items@)));
        let path = join_path(self.root.as_str(), "signatures");
        self.journal.push(FileChange::Write(path, text_bytes(content.as_str())));
        let ghost text = content@;
        self.signatures = Some(content);
        assert(self@ =~= with_signatures(was, text));
    }

    /// Replace the state migrations with those of a complete build.
    pub fn write_migrations(&mut self, migrations: &Vec<MigrationRecord>)
        ensures
            final(self)@.migrations is Some,
            renders_migrations(final(self)@.migrations->0, migration_views(migrations@)),
            final(self)@ == with_migrations(old(self)@, final(self)@.migrations->0),
    {
        let ghost was = self@;
        let records = copy_migrations(migrations);
        let ghost rs = records@;
        let content = render_migrations(records);
        assert(content@ == joined_lines(migration_lines(migration_views(sorted(rs)))));
        let path = join_path(self.root.as_str(), "migrations");
        self.journal.push(FileChange::Write(path, text_bytes(content.as_str())));
        let ghost text = content@;
        self.migrations = Some(content);
        assert(self@ =~= with_migrations(was, text));
    }
}

// ── modules ─────────────────────────────────────────────────────────────────

/// How many objects of a module were written and how many were there.
#[derive(Debug, Clone, Copy, PartialEq, Eq, Structural)]
pub struct PutStats {
    /// The objects that were written.
    pub written: usize,
    /// The objects that were there.
    pub deduplicated: usize,
}

impl Default for PutStats {
    fn default() -> (r: PutStats)
        ensures
            r.written == 0,
            r.deduplicated == 0,
    {
        PutStats { written: 0, deduplicated: 0 }
    }
}

/// With the objects of a module.
pub open spec fn with_object_files(v: StoreView, objects: Seq<(Digest, StoredObject)>) -> StoreView
    decreases objects.len(),
{
    if objects.len() == 0 {
        v
    } else {
        with_object_file(
            with_object_files(v, objects.drop_last()),
            objects.last().0@,
            objects.last().1.content(),
        )
    }
}

/// How many objects of a module are not there yet.
pub open spec fn new_objects(v: StoreView, objects: Seq<(Digest, StoredObject)>) -> nat
    decreases objects.len(),
{
    if objects.len() == 0 {
        0
    } else {
        let rest = objects.drop_last();
        new_objects(v, rest) + if with_object_files(v, rest).objects.contains_key(
            objects.last().0@,
        ) {
            0nat
        } else {
            1nat
        }
    }
}

/// Bindings under others.
pub open spec fn overlaid(
    names: Map<Seq<char>, Seq<u8>>,
    with: Map<Seq<char>, Seq<u8>>,
) -> Map<Seq<char>, Seq<u8>> {
    names.union_prefer_right(with)
}

/// Signatures after names were bound anew: each such name has the signature that
/// came with it, or none.
pub open spec fn resigned(
    signatures: Map<Seq<char>, Seq<char>>,
    bound: Map<Seq<char>, Seq<u8>>,
    fresh: Map<Seq<char>, Seq<char>>,
) -> Map<Seq<char>, Seq<char>> {
    Map::new(
        |n: Seq<char>|
            if bound.contains_key(n) {
                fresh.contains_key(n)
            } else {
                signatures.contains_key(n)
            },
        |n: Seq<char>|
            if bound.contains_key(n) {
                fresh[n]
            } else {
                signatures[n]
            },
    )
}

/// Bind names, and take over the signatures that come with them.
fn bind_names(
    names: &mut OrdMap<String, Digest>,
    signatures: &mut OrdMap<String, String>,
    bound: &OrdMap<String, Digest>,
    fresh: &OrdMap<String, String>,
)
    ensures
        hash_values(final(names)@) == overlaid(hash_values(old(names)@), hash_values(bound@)),
        text_values(final(signatures)@) == resigned(
            text_values(old(signatures)@),
            hash_values(bound@),
            text_values(fresh@),
        ),
{
    let ghost names0 = hash_values(names@);
    let ghost sigs0 = text_values(signatures@);
    let ghost given = text_values(fresh@);
    let items = bound.items();
    let ghost entries = items@;
    let mut i: usize = 0;
    assert(entries_map(entries.take(0)) =~= Map::empty());
    assert(names0 =~= overlaid(names0, hash_values(entries_map(entries.take(0)))));
    assert(sigs0 =~= resigned(sigs0, hash_values(entries_map(entries.take(0))), given));
    while i < items.len()
        invariant
            i <= items@.len(),
            entries == items@,
            keys_increase(entries),
            given == text_values(fresh@),
            hash_values(names@) == overlaid(
                names0,
                hash_values(entries_map(entries.take(i as int))),
            ),
            text_values(signatures@) == resigned(
                sigs0,
                hash_values(entries_map(entries.take(i as int))),
                given,
            ),
        decreases items@.len() - i,
    {
        let ghost nb = hash_values(names@);
        let ghost sb = text_values(signatures@);
        let ghost before = hash_values(entries_map(entries.take(i as int)));
        let ghost key = entries[i as int].0@;
        let ghost hash = entries[i as int].1@;
        let ghost after = hash_values(entries_map(entries.take(i + 1)));
        proof {
            lemma_prefix_map(entries, i + 1);
            assert(after =~= before.insert(key, hash));
        }
        let name = owned(items[i].0.as_str());
        names.insert(owned(items[i].0.as_str()), items[i].1);
        assert(hash_values(names@) =~= nb.insert(key, hash));
        assert(hash_values(names@) =~= overlaid(names0, after));
        match fresh.get(&name) {
            Some(s) => {
                assert(given[key] == s@);
                signatures.insert(name, owned(s.as_str()));
                assert(text_values(signatures@) =~= sb.insert(key, given[key]));
            },
            None => {
                signatures.remove(&name);
                assert(text_values(signatures@) =~= sb.remove(key));
            },
        }
        assert(text_values(signatures@) =~= resigned(sigs0, after, given));
        i = i + 1;
    }
    assert(entries.take(entries.len() as int) =~= entries);
}

/// The names that a store binds after a module was put into it: those of its
/// functions, then those of its constants, over what was bound.
pub open spec fn put_names(names: Map<Seq<char>, Seq<u8>>, m: CompiledModule) -> Map<
    Seq<char>,
    Seq<u8>,
> {
    overlaid(
        overlaid(names, hash_values(m.function_names@)),
        hash_values(m.const_names@),
    )
}

/// The signatures that a store holds after a module was put into it.
pub open spec fn put_signatures(signatures: Map<Seq<char>, Seq<char>>, m: CompiledModule) -> Map<
    Seq<char>,
    Seq<char>,
> {
    resigned(
        resigned(signatures, hash_values(m.function_names@), text_values(m.signatures@)),
        hash_values(m.const_names@),
        text_values(m.signatures@),
    )
}

impl DiskStore {
    /// Write the objects of a module.
    fn put_objects(&mut self, module: &CompiledModule) -> (r: PutStats)
        ensures
            final(self)@ == with_object_files(old(self)@, module.objects.seq()),
            r.written == new_objects(old(self)@, module.objects.seq()),
            r.written + r.deduplicated == module.objects.seq().len(),
    {
        let ghost was = self@;
        let items = module.objects.items();
        let ghost all = items@;
        let mut stats = PutStats::default();
        let mut i: usize = 0;
        assert(all.take(0) =~= seq![]);
        while i < items.len()
            invariant
                i <= items@.len(),
                all == items@,
                self@ == with_object_files(was, all.take(i as int)),
                stats.written == new_objects(was, all.take(i as int)),
                stats.written + stats.deduplicated == i,
            decreases items@.len() - i,
        {
            assert(all.take(i + 1).drop_last() =~= all.take(i as int));
            assert(all.take(i + 1).last() == all[i as int]);
            let written = self.put_object_at(&items[i].0, &items[i].1);
            if written {
                stats.written = stats.written + 1;
            } else {
                stats.deduplicated = stats.deduplicated + 1;
            }
            i = i + 1;
        }
        assert(all.take(all.len() as int) =~= all);
        stats
    }

    /// Write the objects of a module and bind its names. A name that is bound
    /// anew has the signature that came with it or none; the migrations are
    /// replaced.
    pub fn put_module(&mut self, module: &CompiledModule) -> (r: Result<PutStats, DiskStoreError>)
        ensures
            ({
                let v = with_object_files(old(self)@, module.objects.seq());
                match (names_in(v.names), signatures_in(v.signatures)) {
                    (Err(e), _) => r matches Err(x) && x@ == e && final(self)@ == v,
                    (_, Err(e)) => r matches Err(x) && x@ == e && final(self)@ == v,
                    (Ok(ns), Ok(ss)) => {
                        &&& r matches Ok(stats) && stats.written == new_objects(
                            old(self)@,
                            module.objects.seq(),
                        ) && stats.written + stats.deduplicated == module.objects.seq().len()
                        &&& final(self)@.names is Some && renders_names(
                            final(self)@.names->0,
                            put_names(ns, *module),
                        )
                        &&& final(self)@.signatures is Some && renders_signatures(
                            final(self)@.signatures->0,
                            put_signatures(ss, *module),
                        )
                        &&& final(self)@.migrations is Some && renders_migrations(
                            final(self)@.migrations->0,
                            migration_views(module.migrations@),
                        )
                        &&& final(self)@ == with_migrations(
                            with_signatures(
                                with_names(v, final(self)@.names->0),
                                final(self)@.signatures->0,
                            ),
                            final(self)@.migrations->0,
                        )
                    },
                }
            }),
    {
        let stats = self.put_objects(module);
        let mut names = self.names()?;
        let mut signatures = self.signatures()?;
        bind_names(&mut names, &mut signatures, &module.function_names, &module.signatures);
        bind_names(&mut names, &mut signatures, &module.const_names, &module.signatures);
        self.write_names(&names);
        self.write_signatures(&signatures);
        self.write_migrations(&module.migrations);
        Ok(stats)
    }
}

// ── laws ────────────────────────────────────────────────────────────────────

/// Names that were written are read back. Names with a line feed in them, or a
/// carriage return at their end, are left out: the file has no escape for them.
pub proof fn written_names_are_read_back(content: Seq<char>, names: Map<Seq<char>, Seq<u8>>)
    requires
        renders_names(content, names),
        forall|n: Seq<char>| #[trigger] names.contains_key(n) ==> plain_name(n),
    ensures
        names_in(Some(content)) == Ok::<Map<Seq<char>, Seq<u8>>, StoreFault>(names),
{
    let entries = choose|entries: Seq<(String, Digest)>|
        keys_increase(entries) && hash_values(entries_map(entries)) == names && content
            == joined_lines(#[trigger] name_lines(entries));
    name_entries_read_back(entries);
}

/// Whether migrations are in order of cell, old and new shape.
pub open spec fn in_order(ms: Seq<MigrationView>) -> bool {
    forall|i: int, j: int|
        0 <= i < j < ms.len() ==> !ranks_lt(
            migration_rank(#[trigger] ms[j]),
            migration_rank(#[trigger] ms[i]),
        )
}

/// What a migration is ordered by.
pub open spec fn migration_rank(m: MigrationView) -> Seq<Seq<u8>> {
    seq![encode_utf8(m.cell), encode_utf8(m.old), encode_utf8(m.new)]
}

proof fn lemma_views_map(rs: Seq<MigrationRecord>)
    ensures
        migration_views(rs) == rs.map_values(|r: MigrationRecord| r@),
        ranks(rs) == migration_views(rs).map_values(|m: MigrationView| migration_rank(m)),
{
    assert(migration_views(rs) =~= rs.map_values(|r: MigrationRecord| r@));
    assert forall|i: int| 0 <= i < rs.len() implies #[trigger] ranks(rs)[i]
        == migration_views(rs).map_values(|m: MigrationView| migration_rank(m))[i] by {
        assert(rs[i].rank() =~= migration_rank(rs[i]@));
    }
    assert(ranks(rs) =~= migration_views(rs).map_values(|m: MigrationView| migration_rank(m)));
}

/// Migrations that were written are read back, each as often as it was written,
/// in order of cell, old and new shape.
pub proof fn written_migrations_are_read_back(content: Seq<char>, ms: Seq<MigrationView>)
    requires
        renders_migrations(content, ms),
    ensures
        migrations_in(Some(content)) matches Ok(rs) && rs.to_multiset() == ms.to_multiset()
            && in_order(rs),
{
    let rs = choose|rs: Seq<MigrationRecord>|
        migration_views(rs) == ms && content == joined_lines(
            migration_lines(migration_views(#[trigger] sorted(rs))),
        );
    let now = migration_views(sorted(rs));
    migrations_read_back(now);
    sorted_is_ranked(rs);
    lemma_views_map(rs);
    lemma_views_map(sorted(rs));
    mapping_keeps_permutation(sorted(rs), rs, |r: MigrationRecord| r@);
    assert forall|i: int, j: int| 0 <= i < j < now.len() implies !ranks_lt(
        migration_rank(#[trigger] now[j]),
        migration_rank(#[trigger] now[i]),
    ) by {
        assert(!ranks_lt(sorted(rs)[j].rank(), sorted(rs)[i].rank()));
        assert(sorted(rs)[i].rank() =~= migration_rank(now[i]));
        assert(sorted(rs)[j].rank() =~= migration_rank(now[j]));
    }
}

/// The same migrations in another order are written as the same text.
pub proof fn written_migrations_forget_the_order(
    content: Seq<char>,
    ms: Seq<MigrationView>,
    other: Seq<char>,
    ns: Seq<MigrationView>,
)
    requires
        renders_migrations(content, ms),
        renders_migrations(other, ns),
        ms.to_multiset() == ns.to_multiset(),
    ensures
        content == other,
{
    let rs = choose|rs: Seq<MigrationRecord>|
        migration_views(rs) == ms && content == joined_lines(
            migration_lines(migration_views(#[trigger] sorted(rs))),
        );
    let qs = choose|qs: Seq<MigrationRecord>|
        migration_views(qs) == ns && other == joined_lines(
            migration_lines(migration_views(#[trigger] sorted(qs))),
        );
    lemma_views_map(rs);
    lemma_views_map(qs);
    mapping_keeps_permutation(ms, ns, |m: MigrationView| migration_rank(m));
    sorting_forgets_the_order(rs, qs);
    let a = sorted(rs);
    let b = sorted(qs);
    assert(ranks(a).len() == a.len() && ranks(b).len() == b.len());
    assert forall|i: int| 0 <= i < a.len() implies migration_views(a)[i] == migration_views(
        b,
    )[i] by {
        assert(ranks(a)[i] == a[i].rank() && ranks(b)[i] == b[i].rank());
        assert(a[i].rank()[0] == encode_utf8(a[i].cell@));
        assert(a[i].rank()[1] == encode_utf8(a[i].old@));
        assert(a[i].rank()[2] == encode_utf8(a[i].new@));
        assert(b[i].rank()[0] == encode_utf8(b[i].cell@));
        assert(b[i].rank()[1] == encode_utf8(b[i].old@));
        assert(b[i].rank()[2] == encode_utf8(b[i].new@));
        text_bytes_injective(a[i].cell@, b[i].cell@);
        text_bytes_injective(a[i].old@, b[i].old@);
        text_bytes_injective(a[i].new@, b[i].new@);
    }
    assert(migration_views(a) =~= migration_views(b));
}

/// Signatures that were written are read back.
pub proof fn written_signatures_are_read_back(
    content: Seq<char>,
    signatures: Map<Seq<char>, Seq<char>>,
)
    requires
        renders_signatures(content, signatures),
    ensures
        signatures_in(Some(content)) == Ok::<Map<Seq<char>, Seq<char>>, StoreFault>(signatures),
{
    let entries = choose|entries: Seq<(String, String)>|
        keys_increase(entries) && text_values(entries_map(entries)) == signatures && content
            == joined_lines(#[trigger] signature_lines(entries));
    signature_entries_read_back(entries);
}

/// After a module was put into a store, each of its names is bound to its hash
/// and has the signature that came with it, or none; what the module does not
/// bind is as it was.
pub proof fn put_module_binds_its_names(
    names: Map<Seq<char>, Seq<u8>>,
    signatures: Map<Seq<char>, Seq<char>>,
    m: CompiledModule,
    n: Seq<char>,
)
    ensures
        ({
            let bs = joined_bindings(put_names(names, m), put_signatures(signatures, m));
            let fresh = text_values(m.signatures@);
            let sig = if fresh.contains_key(n) {
                Some(fresh[n])
            } else {
                None
            };
            if m.const_names@.contains_key(n) {
                bs.contains_key(n) && bs[n] == (m.const_names@[n]@, sig)
            } else if m.function_names@.contains_key(n) {
                bs.contains_key(n) && bs[n] == (m.function_names@[n]@, sig)
            } else {
                bs.contains_key(n) == names.contains_key(n) && (names.contains_key(n) ==> bs[n]
                    == joined_bindings(names, signatures)[n])
            }
        }),
{
    let bs = joined_bindings(put_names(names, m), put_signatures(signatures, m));
    if !m.const_names@.contains_key(n) && !m.function_names@.contains_key(n)
        && !names.contains_key(n) {
        assert(!bs.contains_key(n));
    }
}

} // verus!
