//! What changed between two build manifests.
//!
//! Three axes, each in increasing order: modules added, removed or changed;
//! name bindings, classified by the rebinding rule; and objects added or
//! removed.

use vstd::prelude::*;

use crate::digest::{hash_hex_bytes, hex_text, is_hash_hex, Digest};
use crate::disk_store::objects::DiskStore;
use crate::disk_store::snapshot::{BuildManifest, ManifestModule, ManifestView, ModuleView};
use crate::module_paths::texts;
use crate::nominal::{is_uuid_text, parses_as_uuid};
use crate::order::{bytes_same, enumerates, text_same};
use crate::ordmap::{entries_map, keys_increase, picked, picked_enumerates, OrdMap};
use crate::text::{chars_of, owned, text_between};
use crate::wire::{contents, Wire};

verus! {

broadcast use {vstd::string::group_string_axioms, vstd::array::group_array_axioms};

/// One name binding's fate across two snapshots.
#[derive(Debug, Clone, Copy, PartialEq, Eq, Structural)]
pub enum BindingChange {
    /// Bound to the same hash on both sides.
    Unchanged,
    /// Another hash under the same canonical signature.
    Rebound,
    /// Another hash whose signature changed, or is missing on either side.
    Retired,
    /// A name that only the newer snapshot has.
    Added,
}

/// A name's binding: the hash and, where it was rendered, the signature.
pub struct BindingView {
    /// The hash.
    pub hash: Seq<u8>,
    /// The canonical signature.
    pub signature: Option<Seq<char>>,
}

/// The rebinding rule: the same hash is unchanged; another hash is a rebinding
/// only where both signatures are known and the same.
pub open spec fn binding_fate(prev: Option<BindingView>, next: BindingView) -> BindingChange {
    match prev {
        None => BindingChange::Added,
        Some(p) => if p.hash == next.hash {
            BindingChange::Unchanged
        } else if p.signature is Some && p.signature == next.signature {
            BindingChange::Rebound
        } else {
            BindingChange::Retired
        },
    }
}

/// The view of a borrowed binding.
pub open spec fn binding_view(b: (&[u8; 32], Option<&str>)) -> BindingView {
    BindingView {
        hash: b.0@,
        signature: match b.1 {
            Some(s) => Some(s@),
            None => None,
        },
    }
}

/// Classify one name's binding against its previous binding.
pub fn classify_binding(
    prev: Option<(&[u8; 32], Option<&str>)>,
    next: (&[u8; 32], Option<&str>),
) -> (r: BindingChange)
    ensures
        r == binding_fate(
            (match prev {
                Some(p) => Some(binding_view(p)),
                None => None,
            }),
            binding_view(next),
        ),
{
    match prev {
        None => BindingChange::Added,
        Some((prev_hash, prev_sig)) => {
            if bytes_same(prev_hash.as_slice(), next.0.as_slice()) {
                return BindingChange::Unchanged;
            }
            if let Some(a) = prev_sig {
                if let Some(b) = next.1 {
                    if text_same(a, b) {
                        return BindingChange::Rebound;
                    }
                }
            }
            BindingChange::Retired
        },
    }
}

/// The position of the first `::` in text, or the length where there is none.
pub open spec fn head_end(text: Seq<char>, from: int) -> int
    decreases text.len() - from,
{
    if from >= text.len() {
        text.len() as int
    } else if from + 1 < text.len() && text[from] == ':' && text[from + 1] == ':' {
        from
    } else {
        head_end(text, from + 1)
    }
}

/// Whether a name is a dispatch symbol: what stands before its first `::` is a
/// uuid.
pub open spec fn dispatch_symbol(name: Seq<char>) -> bool {
    is_uuid_text(name.subrange(0, head_end(name, 0)))
}

/// Whether a store name is a content dispatch symbol rather than the name of
/// an item of a module.
fn is_dispatch_symbol(name: &str) -> (r: bool)
    ensures
        r == dispatch_symbol(name@),
{
    let chars = chars_of(name);
    let mut i: usize = 0;
    while i < chars.len() && !(i + 1 < chars.len() && chars[i] == ':' && chars[i + 1] == ':')
        invariant
            i <= chars@.len(),
            chars@ == name@,
            head_end(name@, 0) == head_end(name@, i as int),
        decreases chars@.len() - i,
    {
        i = i + 1;
    }
    let head = text_between(chars.as_slice(), 0, i);
    parses_as_uuid(head.as_str())
}

/// A module that changed between two snapshots.
#[derive(Debug, PartialEq, Eq)]
pub struct ModuleChange {
    /// The canonical module identity.
    pub module: String,
    /// Whether the interface hash moved as well.
    pub interface_changed: bool,
}

/// The changes of modules.
#[derive(Debug, PartialEq, Eq)]
pub struct ModuleDiff {
    /// Modules that only the newer snapshot has.
    pub added: Vec<String>,
    /// Modules that only the older snapshot had.
    pub removed: Vec<String>,
    /// Modules of both whose syntax tree changed.
    pub changed: Vec<ModuleChange>,
}

/// The changes of name bindings.
#[derive(Debug, PartialEq, Eq)]
pub struct BindingDiff {
    /// Names that only the newer snapshot binds.
    pub added: Vec<String>,
    /// Names that only the older snapshot bound.
    pub removed: Vec<String>,
    /// Names with a new hash under the same signature.
    pub rebound: Vec<String>,
    /// Names with a new hash under a changed or missing signature.
    pub retired: Vec<String>,
}

/// The changes of the object set.
#[derive(Debug, PartialEq, Eq)]
pub struct ObjectDiff {
    /// Objects that only the newer snapshot refers to, in hexadecimal.
    pub added: Vec<String>,
    /// Objects that only the older snapshot referred to, in hexadecimal.
    pub removed: Vec<String>,
    /// The size on disk of the added objects.
    pub added_bytes: u64,
    /// The size on disk of the removed objects.
    pub removed_bytes: u64,
}

/// What changed between two build snapshots.
#[derive(Debug, PartialEq, Eq)]
pub struct SnapshotDiff {
    /// The package of the older snapshot.
    pub from_package: String,
    /// The package of the newer snapshot.
    pub to_package: String,
    /// The changes of modules.
    pub modules: ModuleDiff,
    /// The changes of name bindings.
    pub bindings: BindingDiff,
    /// The changes of the object set.
    pub objects: ObjectDiff,
}

impl SnapshotDiff {
    /// Whether every list of the diff is empty.
    pub open spec fn nothing(self) -> bool {
        &&& self.modules.added@.len() == 0
        &&& self.modules.removed@.len() == 0
        &&& self.modules.changed@.len() == 0
        &&& self.bindings.added@.len() == 0
        &&& self.bindings.removed@.len() == 0
        &&& self.bindings.rebound@.len() == 0
        &&& self.bindings.retired@.len() == 0
        &&& self.objects.added@.len() == 0
        &&& self.objects.removed@.len() == 0
    }

    /// Whether nothing changed.
    pub fn is_empty(&self) -> (r: bool)
        ensures
            r == self.nothing(),
    {
        self.modules.added.len() == 0 && self.modules.removed.len() == 0
            && self.modules.changed.len() == 0 && self.bindings.added.len() == 0
            && self.bindings.removed.len() == 0 && self.bindings.rebound.len() == 0
            && self.bindings.retired.len() == 0 && self.objects.added.len() == 0
            && self.objects.removed.len() == 0
    }
}

// ── modules ─────────────────────────────────────────────────────────────────

/// The modules of a manifest by identity; of two records of one module the
/// later counts.
pub open spec fn module_map(ms: Seq<ModuleView>) -> Map<Seq<char>, ModuleView>
    decreases ms.len(),
{
    if ms.len() == 0 {
        Map::empty()
    } else {
        module_map(ms.drop_last()).insert(ms.last().module, ms.last())
    }
}

/// Whether a module is in both manifests with another syntax tree.
pub open spec fn module_changed(from: ManifestView, to: ManifestView, n: Seq<char>) -> bool {
    module_map(from.modules).contains_key(n) && module_map(to.modules).contains_key(n)
        && module_map(from.modules)[n].resolved_ast_hash
        != module_map(to.modules)[n].resolved_ast_hash
}

/// The identities of the changed modules.
pub open spec fn change_names(changed: Seq<ModuleChange>) -> Seq<Seq<char>> {
    Seq::new(changed.len(), |i: int| changed[i].module@)
}

/// What a module diff says of two manifests.
pub open spec fn module_diff_of(d: ModuleDiff, from: ManifestView, to: ManifestView) -> bool {
    let old = module_map(from.modules);
    let new = module_map(to.modules);
    &&& enumerates(
        d.added.content(),
        Set::new(|n: Seq<char>| new.contains_key(n) && !old.contains_key(n)),
    )
    &&& enumerates(
        d.removed.content(),
        Set::new(|n: Seq<char>| old.contains_key(n) && !new.contains_key(n)),
    )
    &&& enumerates(
        change_names(d.changed@),
        Set::new(|n: Seq<char>| module_changed(from, to, n)),
    )
    &&& forall|i: int|
        0 <= i < d.changed@.len() ==> (#[trigger] d.changed@[i]).interface_changed == (
        old[d.changed@[i].module@].interface_hash != new[d.changed@[i].module@].interface_hash)
}

/// Where the record of each module stands.
fn module_index(manifest: &BuildManifest) -> (r: OrdMap<String, usize>)
    ensures
        forall|n: Seq<char>| #[trigger]
            r@.contains_key(n) <==> module_map(manifest@.modules).contains_key(n),
        forall|n: Seq<char>| #[trigger]
            r@.contains_key(n) ==> r@[n] < manifest.modules@.len()
                && manifest.modules@[r@[n] as int].content() == module_map(manifest@.modules)[n],
{
    let mut out: OrdMap<String, usize> = OrdMap::new();
    let ghost ms = manifest.modules.content();
    let mut i: usize = 0;
    assert(ms.take(0) =~= seq![]);
    while i < manifest.modules.len()
        invariant
            i <= manifest.modules@.len(),
            ms == manifest.modules.content(),
            forall|n: Seq<char>| #[trigger]
                out@.contains_key(n) <==> module_map(ms.take(i as int)).contains_key(n),
            forall|n: Seq<char>| #[trigger]
                out@.contains_key(n) ==> out@[n] < i && manifest.modules@[out@[n] as int].content()
                    == module_map(ms.take(i as int))[n],
        decreases manifest.modules@.len() - i,
    {
        out.insert(owned(manifest.modules[i].module.as_str()), i);
        assert(ms.take(i + 1).drop_last() =~= ms.take(i as int));
        assert(ms.take(i + 1).last() == manifest.modules@[i as int].content());
        i = i + 1;
    }
    assert(ms.take(ms.len() as int) =~= ms);
    out
}

/// The keys of one index that another lacks, in order.
fn keys_missing<V, U>(index: &OrdMap<String, V>, other: &OrdMap<String, U>) -> (r: Vec<String>)
    ensures
        enumerates(
            r.content(),
            Set::new(|n: Seq<char>| index@.contains_key(n) && !other@.contains_key(n)),
        ),
{
    let items = index.items();
    let mut out: Vec<String> = Vec::new();
    let ghost keep = |n: Seq<char>| !other@.contains_key(n);
    let mut i: usize = 0;
    assert(out.content() =~= seq![]);
    while i < items.len()
        invariant
            i <= items@.len(),
            keep == (|n: Seq<char>| !other@.contains_key(n)),
            out.content() == picked(items@, i as int, keep),
        decreases items@.len() - i,
    {
        let ghost before = out.content();
        if !other.contains_key(&items[i].0) {
            out.push(owned(items[i].0.as_str()));
            assert(out.content() =~= before.push(items@[i as int].0@));
        }
        i = i + 1;
    }
    proof {
        picked_enumerates(items@, keep);
        assert(Set::new(|n: Seq<char>| entries_map(items@).contains_key(n) && keep(n)) =~= Set::new(
            |n: Seq<char>| index@.contains_key(n) && !other@.contains_key(n),
        ));
    }
    out
}

fn diff_modules(from: &BuildManifest, to: &BuildManifest) -> (r: ModuleDiff)
    ensures
        module_diff_of(r, from@, to@),
{
    let old_index = module_index(from);
    let new_index = module_index(to);
    let ghost old_map = module_map(from@.modules);
    let ghost new_map = module_map(to@.modules);
    let added = keys_missing(&new_index, &old_index);
    let removed = keys_missing(&old_index, &new_index);
    let items = new_index.items();
    let mut changed: Vec<ModuleChange> = Vec::new();
    let ghost keep = |n: Seq<char>| module_changed(from@, to@, n);
    let mut i: usize = 0;
    assert(change_names(changed@) =~= seq![]);
    while i < items.len()
        invariant
            i <= items@.len(),
            keep == (|n: Seq<char>| module_changed(from@, to@, n)),
            old_map == module_map(from@.modules),
            new_map == module_map(to@.modules),
            keys_increase(items@),
            new_index@ == entries_map(items@),
            forall|n: Seq<char>| #[trigger]
                old_index@.contains_key(n) <==> old_map.contains_key(n),
            forall|n: Seq<char>| #[trigger]
                old_index@.contains_key(n) ==> old_index@[n] < from.modules@.len()
                    && from.modules@[old_index@[n] as int].content() == old_map[n],
            forall|n: Seq<char>| #[trigger]
                new_index@.contains_key(n) <==> new_map.contains_key(n),
            forall|n: Seq<char>| #[trigger]
                new_index@.contains_key(n) ==> new_index@[n] < to.modules@.len()
                    && to.modules@[new_index@[n] as int].content() == new_map[n],
            change_names(changed@) == picked(items@, i as int, keep),
            forall|j: int|
                0 <= j < changed@.len() ==> (#[trigger] changed@[j]).interface_changed == (
                old_map[changed@[j].module@].interface_hash
                    != new_map[changed@[j].module@].interface_hash),
        decreases items@.len() - i,
    {
        let name = &items[i].0;
        let at: usize = items[i].1;
        proof {
            crate::ordmap::entry_found(items@, i as int);
            assert(new_index@.contains_key(name@));
        }
        if let Some(prev) = old_index.get(name) {
            let a = &from.modules[*prev];
            let b = &to.modules[at];
            assert(a.content() == old_map[name@]);
            assert(b.content() == new_map[name@]);
            if !bytes_same(a.resolved_ast_hash.as_slice(), b.resolved_ast_hash.as_slice()) {
                let ghost before = change_names(changed@);
                changed.push(
                    ModuleChange {
                        module: owned(name.as_str()),
                        interface_changed: !bytes_same(
                            a.interface_hash.as_slice(),
                            b.interface_hash.as_slice(),
                        ),
                    },
                );
                assert(change_names(changed@) =~= before.push(name@));
            }
        }
        i = i + 1;
    }
    proof {
        picked_enumerates(items@, keep);
        assert(Set::new(|n: Seq<char>| entries_map(items@).contains_key(n) && keep(n)) =~= Set::new(
            |n: Seq<char>| module_changed(from@, to@, n),
        ));
        assert(Set::new(
            |n: Seq<char>| new_index@.contains_key(n) && !old_index@.contains_key(n),
        ) =~= Set::new(|n: Seq<char>| new_map.contains_key(n) && !old_map.contains_key(n)));
        assert(Set::new(
            |n: Seq<char>| old_index@.contains_key(n) && !new_index@.contains_key(n),
        ) =~= Set::new(|n: Seq<char>| old_map.contains_key(n) && !new_map.contains_key(n)));
    }
    ModuleDiff { added, removed, changed }
}

// ── name bindings ───────────────────────────────────────────────────────────

/// The signature that a module gives a name; of two the later counts.
pub open spec fn signature_of(sigs: Seq<(Seq<char>, Seq<char>)>, name: Seq<char>) -> Option<
    Seq<char>,
>
    decreases sigs.len(),
{
    if sigs.len() == 0 {
        None
    } else if sigs.last().0 == name {
        Some(sigs.last().1)
    } else {
        signature_of(sigs.drop_last(), name)
    }
}

/// `acc` with the first `k` names of a module bound, dispatch symbols left
/// out.
pub open spec fn bind_names(
    acc: Map<Seq<char>, BindingView>,
    m: ModuleView,
    k: int,
) -> Map<Seq<char>, BindingView>
    decreases k,
{
    if k <= 0 {
        acc
    } else {
        let before = bind_names(acc, m, k - 1);
        let (name, hash) = m.names[k - 1];
        if dispatch_symbol(name) {
            before
        } else {
            before.insert(
                name,
                BindingView { hash, signature: signature_of(m.signatures, name) },
            )
        }
    }
}

/// The name bindings of a manifest, dispatch symbols left out; of two bindings
/// of one name the later counts.
pub open spec fn binding_map(ms: Seq<ModuleView>) -> Map<Seq<char>, BindingView>
    decreases ms.len(),
{
    if ms.len() == 0 {
        Map::empty()
    } else {
        bind_names(binding_map(ms.drop_last()), ms.last(), ms.last().names.len() as int)
    }
}

/// The fate of a name that the newer manifest binds.
pub open spec fn fate_of(from: ManifestView, to: ManifestView, n: Seq<char>) -> BindingChange {
    let old = binding_map(from.modules);
    binding_fate(
        if old.contains_key(n) {
            Some(old[n])
        } else {
            None
        },
        binding_map(to.modules)[n],
    )
}

/// The names of the newer manifest with a given fate.
pub open spec fn fated(from: ManifestView, to: ManifestView, fate: BindingChange) -> Set<Seq<char>> {
    Set::new(
        |n: Seq<char>| binding_map(to.modules).contains_key(n) && fate_of(from, to, n) == fate,
    )
}

/// What a binding diff says of two manifests.
pub open spec fn binding_diff_of(d: BindingDiff, from: ManifestView, to: ManifestView) -> bool {
    &&& enumerates(d.added.content(), fated(from, to, BindingChange::Added))
    &&& enumerates(d.rebound.content(), fated(from, to, BindingChange::Rebound))
    &&& enumerates(d.retired.content(), fated(from, to, BindingChange::Retired))
    &&& enumerates(
        d.removed.content(),
        Set::new(
            |n: Seq<char>|
                binding_map(from.modules).contains_key(n) && !binding_map(to.modules).contains_key(n),
        ),
    )
}

/// A name's binding, borrowed from a manifest.
struct Bound<'a> {
    hash: &'a [u8; 32],
    signature: Option<&'a String>,
}

impl<'a> Bound<'a> {
    spec fn bound(&self) -> BindingView {
        BindingView {
            hash: self.hash@,
            signature: match self.signature {
                Some(s) => Some(s@),
                None => None,
            },
        }
    }

    fn parts(&self) -> (r: (&'a [u8; 32], Option<&'a str>))
        ensures
            binding_view(r) == self.bound(),
    {
        match self.signature {
            Some(s) => (self.hash, Some(s.as_str())),
            None => (self.hash, None),
        }
    }
}

/// Whether an index of bindings holds exactly the given bindings.
spec fn indexes<'a>(index: Map<Seq<char>, Bound<'a>>, map: Map<Seq<char>, BindingView>) -> bool {
    &&& forall|n: Seq<char>| #[trigger] index.contains_key(n) <==> map.contains_key(n)
    &&& forall|n: Seq<char>| #[trigger] index.contains_key(n) ==> index[n].bound() == map[n]
}

/// The signature that a module gives a name.
fn find_signature<'a>(module: &'a ManifestModule, name: &String) -> (r: Option<&'a String>)
    ensures
        (match r {
            Some(s) => Some(s@),
            None => None,
        }) == signature_of(module.content().signatures, name@),
{
    let ghost sigs = module.content().signatures;
    let mut i: usize = module.signatures.len();
    assert(sigs.take(i as int) =~= sigs);
    while i > 0
        invariant
            i <= module.signatures@.len(),
            sigs == module.signatures.content(),
            signature_of(sigs, name@) == signature_of(sigs.take(i as int), name@),
        decreases i,
    {
        i = i - 1;
        assert(sigs.take(i + 1).last() == sigs[i as int]);
        assert(sigs.take(i + 1).drop_last() =~= sigs.take(i as int));
        if text_same(module.signatures[i].0.as_str(), name.as_str()) {
            return Some(&module.signatures[i].1);
        }
    }
    None
}

/// The name bindings of a manifest.
fn manifest_bindings<'a>(manifest: &'a BuildManifest) -> (r: OrdMap<String, Bound<'a>>)
    ensures
        indexes(r@, binding_map(manifest@.modules)),
{
    let mut out: OrdMap<String, Bound<'a>> = OrdMap::new();
    let ghost ms = manifest.modules.content();
    let mut i: usize = 0;
    assert(ms.take(0) =~= seq![]);
    while i < manifest.modules.len()
        invariant
            i <= manifest.modules@.len(),
            ms == manifest.modules.content(),
            indexes(out@, binding_map(ms.take(i as int))),
        decreases manifest.modules@.len() - i,
    {
        let module = &manifest.modules[i];
        let ghost w = module.content();
        let ghost acc = binding_map(ms.take(i as int));
        let mut k: usize = 0;
        while k < module.names.len()
            invariant
                k <= module.names@.len(),
                w == module.content(),
                indexes(out@, bind_names(acc, w, k as int)),
            decreases module.names@.len() - k,
        {
            let name = &module.names[k].0;
            assert(w.names[k as int] == (name@, module.names@[k as int].1@));
            if !is_dispatch_symbol(name.as_str()) {
                let signature = find_signature(module, name);
                let entry = Bound { hash: &module.names[k].1, signature };
                out.insert(owned(name.as_str()), entry);
            }
            k = k + 1;
        }
        assert(ms.take(i + 1).drop_last() =~= ms.take(i as int));
        assert(ms.take(i + 1).last() == w);
        i = i + 1;
    }
    assert(ms.take(ms.len() as int) =~= ms);
    out
}

/// The names of the newer index with a given fate, in order.
fn names_with_fate<'a>(
    old_index: &OrdMap<String, Bound<'a>>,
    new_index: &OrdMap<String, Bound<'a>>,
    fate: BindingChange,
    from: Ghost<ManifestView>,
    to: Ghost<ManifestView>,
) -> (r: Vec<String>)
    requires
        indexes(old_index@, binding_map(from@.modules)),
        indexes(new_index@, binding_map(to@.modules)),
    ensures
        enumerates(r.content(), fated(from@, to@, fate)),
{
    let items = new_index.items();
    let mut out: Vec<String> = Vec::new();
    let ghost keep = |n: Seq<char>| fate_of(from@, to@, n) == fate;
    let mut i: usize = 0;
    assert(out.content() =~= seq![]);
    while i < items.len()
        invariant
            i <= items@.len(),
            keep == (|n: Seq<char>| fate_of(from@, to@, n) == fate),
            indexes(old_index@, binding_map(from@.modules)),
            indexes(new_index@, binding_map(to@.modules)),
            keys_increase(items@),
            new_index@ == entries_map(items@),
            out.content() == picked(items@, i as int, keep),
        decreases items@.len() - i,
    {
        let name = &items[i].0;
        proof {
            crate::ordmap::entry_found(items@, i as int);
            assert(new_index@.contains_key(name@));
        }
        let prev = match old_index.get(name) {
            Some(b) => Some(b.parts()),
            None => None,
        };
        assert(old_index@.contains_key(name@) <==> binding_map(from@.modules).contains_key(name@));
        let change = classify_binding(prev, items[i].1.parts());
        assert(change == fate_of(from@, to@, name@));
        if change == fate {
            let ghost before = out.content();
            out.push(owned(name.as_str()));
            assert(out.content() =~= before.push(name@));
        }
        i = i + 1;
    }
    proof {
        picked_enumerates(items@, keep);
        assert(Set::new(|n: Seq<char>| entries_map(items@).contains_key(n) && keep(n)) =~= fated(
            from@,
            to@,
            fate,
        ));
    }
    out
}

fn diff_bindings(from: &BuildManifest, to: &BuildManifest) -> (r: BindingDiff)
    ensures
        binding_diff_of(r, from@, to@),
{
    let old_index = manifest_bindings(from);
    let new_index = manifest_bindings(to);
    let removed = keys_missing(&old_index, &new_index);
    proof {
        assert(Set::new(
            |n: Seq<char>| old_index@.contains_key(n) && !new_index@.contains_key(n),
        ) =~= Set::new(
            |n: Seq<char>|
                binding_map(from@.modules).contains_key(n) && !binding_map(
                    to@.modules,
                ).contains_key(n),
        ));
    }
    BindingDiff {
        added: names_with_fate(
            &old_index,
            &new_index,
            BindingChange::Added,
            Ghost(from@),
            Ghost(to@),
        ),
        removed,
        rebound: names_with_fate(
            &old_index,
            &new_index,
            BindingChange::Rebound,
            Ghost(from@),
            Ghost(to@),
        ),
        retired: names_with_fate(
            &old_index,
            &new_index,
            BindingChange::Retired,
            Ghost(from@),
            Ghost(to@),
        ),
    }
}

// ── objects ─────────────────────────────────────────────────────────────────

/// Whether some module of a manifest produced an object.
pub open spec fn produces(ms: Seq<ModuleView>, object: Seq<u8>) -> bool {
    exists|i: int, j: int|
        0 <= i < ms.len() && 0 <= j < ms[i].objects.len() && #[trigger] ms[i].objects[j] == object
}

/// The hexadecimal text of the objects of one manifest that another lacks.
pub open spec fn objects_missing(from: Seq<ModuleView>, to: Seq<ModuleView>) -> Set<Seq<char>> {
    Set::new(
        |t: Seq<char>|
            exists|object: Seq<u8>|
                produces(from, object) && !produces(to, object) && t == #[trigger] hex_text(object),
    )
}

/// What an object diff says of two manifests.
pub open spec fn object_diff_of(d: ObjectDiff, from: ManifestView, to: ManifestView) -> bool {
    &&& enumerates(d.added.content(), objects_missing(to.modules, from.modules))
    &&& enumerates(d.removed.content(), objects_missing(from.modules, to.modules))
}

/// The objects of a manifest.
fn manifest_objects(manifest: &BuildManifest) -> (r: OrdMap<Digest, ()>)
    ensures
        forall|h: Seq<u8>| #[trigger] r@.contains_key(h) <==> produces(manifest@.modules, h),
{
    let mut out: OrdMap<Digest, ()> = OrdMap::new();
    let ghost ms = manifest.modules.content();
    let mut i: usize = 0;
    while i < manifest.modules.len()
        invariant
            i <= manifest.modules@.len(),
            ms == manifest.modules.content(),
            forall|h: Seq<u8>| #[trigger]
                out@.contains_key(h) <==> produces(ms.take(i as int), h),
        decreases manifest.modules@.len() - i,
    {
        let module = &manifest.modules[i];
        let ghost before = out@;
        let mut j: usize = 0;
        while j < module.objects.len()
            invariant
                j <= module.objects@.len(),
                i < ms.len(),
                ms[i as int].objects == contents(module.objects@),
                forall|h: Seq<u8>| #[trigger]
                    out@.contains_key(h) <==> before.contains_key(h) || exists|k: int|
                        0 <= k < j && #[trigger] ms[i as int].objects[k] == h,
            decreases module.objects@.len() - j,
        {
            let ghost was = out@;
            out.insert(Digest::from_bytes(module.objects[j]), ());
            assert(ms[i as int].objects[j as int] == module.objects@[j as int]@);
            assert forall|h: Seq<u8>| #[trigger] out@.contains_key(h) <==> before.contains_key(h)
                || exists|k: int| 0 <= k < j + 1 && #[trigger] ms[i as int].objects[k] == h by {
                assert(out@.contains_key(h) <==> was.contains_key(h) || h
                    == ms[i as int].objects[j as int]);
                if exists|k: int| 0 <= k < j && #[trigger] ms[i as int].objects[k] == h {
                    let k = choose|k: int| 0 <= k < j && #[trigger] ms[i as int].objects[k] == h;
                    assert(ms[i as int].objects[k] == h);
                }
            }
            j = j + 1;
        }
        assert forall|h: Seq<u8>| #[trigger] out@.contains_key(h) <==> produces(
            ms.take(i + 1),
            h,
        ) by {
            assert(before.contains_key(h) <==> produces(ms.take(i as int), h));
            if produces(ms.take(i as int), h) {
                let (p, q) = choose|p: int, q: int|
                    0 <= p < ms.take(i as int).len() && 0 <= q < ms.take(
                        i as int,
                    )[p].objects.len() && #[trigger] ms.take(i as int)[p].objects[q] == h;
                assert(ms.take(i + 1)[p].objects[q] == h);
            }
            if exists|k: int| 0 <= k < j && #[trigger] ms[i as int].objects[k] == h {
                let k = choose|k: int| 0 <= k < j && #[trigger] ms[i as int].objects[k] == h;
                assert(ms.take(i + 1)[i as int].objects[k] == h);
            }
            if produces(ms.take(i + 1), h) {
                let (p, q) = choose|p: int, q: int|
                    0 <= p < ms.take(i + 1).len() && 0 <= q < ms.take(i + 1)[p].objects.len()
                        && #[trigger] ms.take(i + 1)[p].objects[q] == h;
                if p < i {
                    assert(ms.take(i as int)[p].objects[q] == h);
                } else {
                    assert(ms[i as int].objects[q] == h);
                }
            }
        }
        i = i + 1;
    }
    assert(ms.take(ms.len() as int) =~= ms);
    out
}

/// The hexadecimal text of the hashes of one set that another lacks, in order.
fn hex_missing(set: &OrdMap<Digest, ()>, other: &OrdMap<Digest, ()>) -> (r: Vec<String>)
    ensures
        enumerates(
            r.content(),
            Set::new(
                |t: Seq<char>|
                    exists|h: Seq<u8>|
                        set@.contains_key(h) && !other@.contains_key(h) && t == #[trigger] hex_text(
                            h,
                        ),
            ),
        ),
{
    let items = set.items();
    let mut texts: OrdMap<String, ()> = OrdMap::new();
    let mut i: usize = 0;
    while i < items.len()
        invariant
            i <= items@.len(),
            set@ == entries_map(items@),
            forall|t: Seq<char>| #[trigger]
                texts@.contains_key(t) <==> exists|k: int|
                    0 <= k < i && !other@.contains_key((#[trigger] items@[k]).0@) && t == hex_text(
                        items@[k].0@,
                    ),
        decreases items@.len() - i,
    {
        let ghost was = texts@;
        if !other.contains_key(&items[i].0) {
            texts.insert(items[i].0.to_hex(), ());
        }
        assert forall|t: Seq<char>| #[trigger] texts@.contains_key(t) <==> exists|k: int|
            0 <= k < i + 1 && !other@.contains_key((#[trigger] items@[k]).0@) && t == hex_text(
                items@[k].0@,
            ) by {
            assert(items@[i as int] == items@[i as int]);
            assert(was.contains_key(t) <==> exists|k: int|
                0 <= k < i && !other@.contains_key((#[trigger] items@[k]).0@) && t == hex_text(
                    items@[k].0@,
                ));
        }
        i = i + 1;
    }
    let none: OrdMap<String, ()> = OrdMap::new();
    let out = keys_missing(&texts, &none);
    proof {
        let want = Set::new(
            |t: Seq<char>|
                exists|h: Seq<u8>|
                    set@.contains_key(h) && !other@.contains_key(h) && t == #[trigger] hex_text(h),
        );
        let have = Set::new(
            |n: Seq<char>| texts@.contains_key(n) && !none@.contains_key(n),
        );
        assert forall|t: Seq<char>| have.contains(t) <==> want.contains(t) by {
            if texts@.contains_key(t) {
                let k = choose|k: int|
                    0 <= k < items@.len() && !other@.contains_key((#[trigger] items@[k]).0@) && t
                        == hex_text(items@[k].0@);
                let h = items@[k].0@;
                assert(items@[k].0@ == h);
                assert(crate::ordmap::has_key(items@, h)) by {
                    assert(items@[k].0@ == h);
                }
                assert(set@.contains_key(h));
                assert(t == hex_text(h));
            }
            if want.contains(t) {
                let h = choose|h: Seq<u8>|
                    set@.contains_key(h) && !other@.contains_key(h) && t == #[trigger] hex_text(h);
                let k = crate::ordmap::key_position(items@, h);
                assert(items@[k].0@ == h);
            }
        }
        assert(have =~= want);
    }
    out
}

fn diff_objects(from: &BuildManifest, to: &BuildManifest) -> (r: ObjectDiff)
    ensures
        object_diff_of(r, from@, to@),
        r.added_bytes == 0,
        r.removed_bytes == 0,
{
    let old_set = manifest_objects(from);
    let new_set = manifest_objects(to);
    let added = hex_missing(&new_set, &old_set);
    let removed = hex_missing(&old_set, &new_set);
    proof {
        assert(Set::new(
            |t: Seq<char>|
                exists|h: Seq<u8>|
                    new_set@.contains_key(h) && !old_set@.contains_key(h) && t
                        == #[trigger] hex_text(h),
        ) =~= objects_missing(to@.modules, from@.modules));
        assert(Set::new(
            |t: Seq<char>|
                exists|h: Seq<u8>|
                    old_set@.contains_key(h) && !new_set@.contains_key(h) && t
                        == #[trigger] hex_text(h),
        ) =~= objects_missing(from@.modules, to@.modules));
    }
    ObjectDiff { added, removed, added_bytes: 0, removed_bytes: 0 }
}

// ── the whole diff ──────────────────────────────────────────────────────────

/// What a diff says of two manifests, apart from the sizes of objects.
pub open spec fn diff_of(d: SnapshotDiff, from: ManifestView, to: ManifestView) -> bool {
    &&& d.from_package@ == from.package_name
    &&& d.to_package@ == to.package_name
    &&& module_diff_of(d.modules, from, to)
    &&& binding_diff_of(d.bindings, from, to)
    &&& object_diff_of(d.objects, from, to)
}

/// Diff two manifests; the sizes of objects stay zero.
pub fn diff_manifests(from: &BuildManifest, to: &BuildManifest) -> (r: SnapshotDiff)
    ensures
        diff_of(r, from@, to@),
        r.objects.added_bytes == 0,
        r.objects.removed_bytes == 0,
{
    SnapshotDiff {
        from_package: owned(from.package_name.as_str()),
        to_package: owned(to.package_name.as_str()),
        modules: diff_modules(from, to),
        bindings: diff_bindings(from, to),
        objects: diff_objects(from, to),
    }
}

// ── sizes ───────────────────────────────────────────────────────────────────

/// The sizes of the files of objects, given by their hashes in hexadecimal, put
/// together; the sum wraps. What is no hash, or not there, has no size.
pub open spec fn object_sizes(objects: Map<Seq<u8>, Seq<u8>>, hexes: Seq<Seq<char>>) -> u64
    decreases hexes.len(),
{
    if hexes.len() == 0 {
        0
    } else {
        let before = object_sizes(objects, hexes.drop_last());
        let hex = hexes.last();
        if is_hash_hex(hex) && objects.contains_key(hash_hex_bytes(hex)) {
            before.wrapping_add(objects[hash_hex_bytes(hex)].len() as u64)
        } else {
            before
        }
    }
}

impl DiskStore {
    /// The sizes of the files of objects, put together.
    fn sum_object_bytes(&self, hexes: &Vec<String>) -> (r: u64)
        ensures
            r == object_sizes(self@.objects, texts(hexes@)),
    {
        let ghost all = texts(hexes@);
        let mut sum: u64 = 0;
        let mut i: usize = 0;
        assert(all.take(0) =~= seq![]);
        while i < hexes.len()
            invariant
                i <= hexes@.len(),
                all == texts(hexes@),
                sum == object_sizes(self@.objects, all.take(i as int)),
            decreases hexes@.len() - i,
        {
            assert(all.take(i + 1).drop_last() =~= all.take(i as int));
            assert(all.take(i + 1).last() == hexes@[i as int]@);
            if let Some(hash) = Digest::from_hex(hexes[i].as_str()) {
                if let Some(bytes) = self.objects.get(&hash) {
                    assert(self@.objects[hash@] == bytes@);
                    sum = sum.wrapping_add(bytes.len() as u64);
                }
            }
            i = i + 1;
        }
        assert(all.take(all.len() as int) =~= all);
        sum
    }

    /// Diff two manifests, with the sizes that the objects have in this store.
    pub fn snapshot_diff(&self, from: &BuildManifest, to: &BuildManifest) -> (r: SnapshotDiff)
        ensures
            diff_of(r, from@, to@),
            r.objects.added_bytes == object_sizes(self@.objects, texts(r.objects.added@)),
            r.objects.removed_bytes == object_sizes(self@.objects, texts(r.objects.removed@)),
    {
        let mut diff = diff_manifests(from, to);
        let added = self.sum_object_bytes(&diff.objects.added);
        let removed = self.sum_object_bytes(&diff.objects.removed);
        diff.objects.added_bytes = added;
        diff.objects.removed_bytes = removed;
        diff
    }
}

/// A listing of an empty set is empty.
proof fn lemma_enumerates_nothing(s: Seq<Seq<char>>, set: Set<Seq<char>>)
    requires
        enumerates(s, set),
        forall|n: Seq<char>| !set.contains(n),
    ensures
        s.len() == 0,
{
    if s.len() > 0 {
        assert(s.contains(s[0]));
    }
}

/// Diffing a snapshot against itself shows no change.
pub proof fn diff_with_itself_is_empty(d: SnapshotDiff, m: ManifestView)
    requires
        diff_of(d, m, m),
    ensures
        d.nothing(),
{
    let mods = module_map(m.modules);
    lemma_enumerates_nothing(
        d.modules.added.content(),
        Set::new(|n: Seq<char>| mods.contains_key(n) && !mods.contains_key(n)),
    );
    lemma_enumerates_nothing(
        d.modules.removed.content(),
        Set::new(|n: Seq<char>| mods.contains_key(n) && !mods.contains_key(n)),
    );
    lemma_enumerates_nothing(
        change_names(d.modules.changed@),
        Set::new(|n: Seq<char>| module_changed(m, m, n)),
    );
    lemma_enumerates_nothing(d.bindings.added.content(), fated(m, m, BindingChange::Added));
    lemma_enumerates_nothing(d.bindings.rebound.content(), fated(m, m, BindingChange::Rebound));
    lemma_enumerates_nothing(d.bindings.retired.content(), fated(m, m, BindingChange::Retired));
    lemma_enumerates_nothing(
        d.bindings.removed.content(),
        Set::new(
            |n: Seq<char>|
                binding_map(m.modules).contains_key(n) && !binding_map(m.modules).contains_key(n),
        ),
    );
    lemma_enumerates_nothing(d.objects.added.content(), objects_missing(m.modules, m.modules));
    lemma_enumerates_nothing(d.objects.removed.content(), objects_missing(m.modules, m.modules));
}

/// Two diffs of the same manifests list the same names in the same order.
pub proof fn diff_is_deterministic(
    a: SnapshotDiff,
    b: SnapshotDiff,
    from: ManifestView,
    to: ManifestView,
)
    requires
        diff_of(a, from, to),
        diff_of(b, from, to),
    ensures
        a.modules.added.content() == b.modules.added.content(),
        a.modules.removed.content() == b.modules.removed.content(),
        change_names(a.modules.changed@) == change_names(b.modules.changed@),
        a.bindings.added.content() == b.bindings.added.content(),
        a.bindings.removed.content() == b.bindings.removed.content(),
        a.bindings.rebound.content() == b.bindings.rebound.content(),
        a.bindings.retired.content() == b.bindings.retired.content(),
        a.objects.added.content() == b.objects.added.content(),
        a.objects.removed.content() == b.objects.removed.content(),
{
    let old_map = module_map(from.modules);
    let new_map = module_map(to.modules);
    crate::order::enumeration_is_unique(
        a.modules.added.content(),
        b.modules.added.content(),
        Set::new(|n: Seq<char>| new_map.contains_key(n) && !old_map.contains_key(n)),
    );
    crate::order::enumeration_is_unique(
        a.modules.removed.content(),
        b.modules.removed.content(),
        Set::new(|n: Seq<char>| old_map.contains_key(n) && !new_map.contains_key(n)),
    );
    crate::order::enumeration_is_unique(
        change_names(a.modules.changed@),
        change_names(b.modules.changed@),
        Set::new(|n: Seq<char>| module_changed(from, to, n)),
    );
    crate::order::enumeration_is_unique(
        a.bindings.added.content(),
        b.bindings.added.content(),
        fated(from, to, BindingChange::Added),
    );
    crate::order::enumeration_is_unique(
        a.bindings.rebound.content(),
        b.bindings.rebound.content(),
        fated(from, to, BindingChange::Rebound),
    );
    crate::order::enumeration_is_unique(
        a.bindings.retired.content(),
        b.bindings.retired.content(),
        fated(from, to, BindingChange::Retired),
    );
    crate::order::enumeration_is_unique(
        a.bindings.removed.content(),
        b.bindings.removed.content(),
        Set::new(
            |n: Seq<char>|
                binding_map(from.modules).contains_key(n) && !binding_map(to.modules).contains_key(n),
        ),
    );
    crate::order::enumeration_is_unique(
        a.objects.added.content(),
        b.objects.added.content(),
        objects_missing(to.modules, from.modules),
    );
    crate::order::enumeration_is_unique(
        a.objects.removed.content(),
        b.objects.removed.content(),
        objects_missing(from.modules, to.modules),
    );
}

/// A list that enumerates has what is in the set.
proof fn lemma_enumerates_has(s: Seq<Seq<char>>, names: Set<Seq<char>>, n: Seq<char>)
    requires
        enumerates(s, names),
    ensures
        names.contains(n) <==> s.contains(n),
{
}

/// The names that a manifest binds are those that its modules list, but for dispatch
/// symbols.
pub proof fn bindings_are_what_modules_list(ms: Seq<ModuleView>, n: Seq<char>)
    ensures
        binding_map(ms).contains_key(n) <==> !dispatch_symbol(n) && exists|i: int, k: int|
            0 <= i < ms.len() && 0 <= k < ms[i].names.len() && (#[trigger] ms[i].names[k]).0 == n,
    decreases ms.len(),
{
    if ms.len() > 0 {
        let rest = ms.drop_last();
        let last = ms.len() - 1;
        let m = ms.last();
        bindings_are_what_modules_list(rest, n);
        lemma_names_bound(binding_map(rest), m, m.names.len() as int, n);
        if binding_map(rest).contains_key(n) {
            let (i, k) = choose|i: int, k: int|
                0 <= i < rest.len() && 0 <= k < rest[i].names.len() && (
                #[trigger] rest[i].names[k]).0 == n;
            assert(ms[i].names[k].0 == n);
        } else if binding_map(ms).contains_key(n) {
            let k = choose|k: int| 0 <= k < m.names.len() && (#[trigger] m.names[k]).0 == n;
            assert(ms[last].names[k].0 == n);
        }
        if exists|i: int, k: int|
            0 <= i < ms.len() && 0 <= k < ms[i].names.len() && (#[trigger] ms[i].names[k]).0 == n {
            let (i, k) = choose|i: int, k: int|
                0 <= i < ms.len() && 0 <= k < ms[i].names.len() && (#[trigger] ms[i].names[k]).0
                    == n;
            if i < last {
                assert(rest[i].names[k].0 == n);
            } else {
                assert(m.names[k].0 == n);
            }
        }
    }
}

proof fn lemma_names_bound(
    acc: Map<Seq<char>, BindingView>,
    m: ModuleView,
    k: int,
    n: Seq<char>,
)
    requires
        0 <= k <= m.names.len(),
    ensures
        bind_names(acc, m, k).contains_key(n) <==> acc.contains_key(n) || (!dispatch_symbol(n)
            && exists|j: int| 0 <= j < k && (#[trigger] m.names[j]).0 == n),
    decreases k,
{
    if k > 0 {
        lemma_names_bound(acc, m, k - 1, n);
        if m.names[k - 1].0 == n {
            assert(m.names[k - 1].0 == n);
        }
        if exists|j: int| 0 <= j < k && (#[trigger] m.names[j]).0 == n {
            let j = choose|j: int| 0 <= j < k && (#[trigger] m.names[j]).0 == n;
            if j < k - 1 {
                assert(m.names[j].0 == n);
            }
        }
    }
}

/// What a diff says of a binding that both manifests have: nothing where its content
/// is the same, that it is rebound where only the content is another and the
/// signature is known to be the same, and else that it is retired.
pub proof fn diffs_tell_rebound_from_retired(
    d: SnapshotDiff,
    from: ManifestView,
    to: ManifestView,
    n: Seq<char>,
)
    requires
        diff_of(d, from, to),
        binding_map(from.modules).contains_key(n),
        binding_map(to.modules).contains_key(n),
    ensures
        ({
            let a = binding_map(from.modules)[n];
            let b = binding_map(to.modules)[n];
            let known = a.signature is Some && a.signature == b.signature;
            &&& d.bindings.rebound.content().contains(n) <==> a.hash != b.hash && known
            &&& d.bindings.retired.content().contains(n) <==> a.hash != b.hash && !known
            &&& !d.bindings.added.content().contains(n)
            &&& !d.bindings.removed.content().contains(n)
        }),
{
    lemma_enumerates_has(
        d.bindings.rebound.content(),
        fated(from, to, BindingChange::Rebound),
        n,
    );
    lemma_enumerates_has(
        d.bindings.retired.content(),
        fated(from, to, BindingChange::Retired),
        n,
    );
    lemma_enumerates_has(d.bindings.added.content(), fated(from, to, BindingChange::Added), n);
    lemma_enumerates_has(
        d.bindings.removed.content(),
        Set::new(
            |n: Seq<char>|
                binding_map(from.modules).contains_key(n) && !binding_map(to.modules).contains_key(n),
        ),
        n,
    );
}

/// A diff that is empty misses nothing: the manifests have the same modules with the
/// same syntax trees, bind the same names to the same content, and produce the same
/// objects.
pub proof fn an_empty_diff_misses_nothing(d: SnapshotDiff, from: ManifestView, to: ManifestView)
    requires
        diff_of(d, from, to),
        d.nothing(),
    ensures
        ({
            let a = module_map(from.modules);
            let b = module_map(to.modules);
            &&& a.dom() =~= b.dom()
            &&& forall|n: Seq<char>| #[trigger]
                a.contains_key(n) ==> a[n].resolved_ast_hash == b[n].resolved_ast_hash
        }),
        ({
            let a = binding_map(from.modules);
            let b = binding_map(to.modules);
            &&& a.dom() =~= b.dom()
            &&& forall|n: Seq<char>| #[trigger] a.contains_key(n) ==> a[n].hash == b[n].hash
        }),
        objects_missing(from.modules, to.modules) =~= Set::empty(),
        objects_missing(to.modules, from.modules) =~= Set::empty(),
{
    let a = module_map(from.modules);
    let b = module_map(to.modules);
    assert forall|n: Seq<char>| a.contains_key(n) == b.contains_key(n) && (a.contains_key(n)
        ==> a[n].resolved_ast_hash == b[n].resolved_ast_hash) by {
        lemma_enumerates_has(
            d.modules.added.content(),
            Set::new(|n: Seq<char>| b.contains_key(n) && !a.contains_key(n)),
            n,
        );
        lemma_enumerates_has(
            d.modules.removed.content(),
            Set::new(|n: Seq<char>| a.contains_key(n) && !b.contains_key(n)),
            n,
        );
        lemma_enumerates_has(
            change_names(d.modules.changed@),
            Set::new(|n: Seq<char>| module_changed(from, to, n)),
            n,
        );
    }
    let p = binding_map(from.modules);
    let q = binding_map(to.modules);
    assert forall|n: Seq<char>| p.contains_key(n) == q.contains_key(n) && (p.contains_key(n)
        ==> p[n].hash == q[n].hash) by {
        lemma_enumerates_has(d.bindings.added.content(), fated(from, to, BindingChange::Added), n);
        lemma_enumerates_has(
            d.bindings.removed.content(),
            Set::new(|n: Seq<char>| p.contains_key(n) && !q.contains_key(n)),
            n,
        );
        if p.contains_key(n) && q.contains_key(n) {
            diffs_tell_rebound_from_retired(d, from, to, n);
        }
    }
    assert forall|t: Seq<char>|
        !objects_missing(from.modules, to.modules).contains(t) && !objects_missing(
            to.modules,
            from.modules,
        ).contains(t) by {
        lemma_enumerates_has(
            d.objects.removed.content(),
            objects_missing(from.modules, to.modules),
            t,
        );
        lemma_enumerates_has(
            d.objects.added.content(),
            objects_missing(to.modules, from.modules),
            t,
        );
    }
}

/// A diff the other way round has added and removed exchanged, and the same changes.
pub proof fn diffs_turn_round(
    d: SnapshotDiff,
    e: SnapshotDiff,
    from: ManifestView,
    to: ManifestView,
)
    requires
        diff_of(d, from, to),
        diff_of(e, to, from),
    ensures
        d.modules.added.content() == e.modules.removed.content(),
        d.modules.removed.content() == e.modules.added.content(),
        change_names(d.modules.changed@) == change_names(e.modules.changed@),
        d.bindings.added.content() == e.bindings.removed.content(),
        d.bindings.removed.content() == e.bindings.added.content(),
        d.bindings.rebound.content() == e.bindings.rebound.content(),
        d.bindings.retired.content() == e.bindings.retired.content(),
        d.objects.added.content() == e.objects.removed.content(),
        d.objects.removed.content() == e.objects.added.content(),
{
    let a = module_map(from.modules);
    let b = module_map(to.modules);
    let p = binding_map(from.modules);
    let q = binding_map(to.modules);
    crate::order::enumeration_is_unique(
        d.modules.added.content(),
        e.modules.removed.content(),
        Set::new(|n: Seq<char>| b.contains_key(n) && !a.contains_key(n)),
    );
    crate::order::enumeration_is_unique(
        d.modules.removed.content(),
        e.modules.added.content(),
        Set::new(|n: Seq<char>| a.contains_key(n) && !b.contains_key(n)),
    );
    assert(Set::new(|n: Seq<char>| module_changed(from, to, n)) =~= Set::new(
        |n: Seq<char>| module_changed(to, from, n),
    ));
    crate::order::enumeration_is_unique(
        change_names(d.modules.changed@),
        change_names(e.modules.changed@),
        Set::new(|n: Seq<char>| module_changed(from, to, n)),
    );
    assert(fated(from, to, BindingChange::Added) =~= Set::new(
        |n: Seq<char>| q.contains_key(n) && !p.contains_key(n),
    ));
    assert(fated(to, from, BindingChange::Added) =~= Set::new(
        |n: Seq<char>| p.contains_key(n) && !q.contains_key(n),
    ));
    assert(fated(from, to, BindingChange::Rebound) =~= fated(to, from, BindingChange::Rebound));
    assert(fated(from, to, BindingChange::Retired) =~= fated(to, from, BindingChange::Retired));
    crate::order::enumeration_is_unique(
        d.bindings.added.content(),
        e.bindings.removed.content(),
        fated(from, to, BindingChange::Added),
    );
    crate::order::enumeration_is_unique(
        d.bindings.removed.content(),
        e.bindings.added.content(),
        fated(to, from, BindingChange::Added),
    );
    crate::order::enumeration_is_unique(
        d.bindings.rebound.content(),
        e.bindings.rebound.content(),
        fated(from, to, BindingChange::Rebound),
    );
    crate::order::enumeration_is_unique(
        d.bindings.retired.content(),
        e.bindings.retired.content(),
        fated(from, to, BindingChange::Retired),
    );
    crate::order::enumeration_is_unique(
        d.objects.added.content(),
        e.objects.removed.content(),
        objects_missing(to.modules, from.modules),
    );
    crate::order::enumeration_is_unique(
        d.objects.removed.content(),
        e.objects.added.content(),
        objects_missing(from.modules, to.modules),
    );
}

} // verus!
