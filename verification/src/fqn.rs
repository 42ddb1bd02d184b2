//! Fully-qualified names: the identity of every item a build contains.
//!
//! An item's identity is a structure, compared field by field: the scope and
//! path of the module that defines it, and its path within the module. The text
//! of a name is for people; two different names may have the same text.

use vstd::prelude::*;

use crate::module_paths::{
    append_texts, appended, copy_texts, is_core, join_texts, joined, own_texts_from, str_texts,
    texts, texts_same, ModulePath,
};
use crate::order::text_same;
use crate::text::owned;

verus! {

broadcast use vstd::string::group_string_axioms;

/// Whose namespace an item lives in.
#[derive(Debug, PartialEq, Eq, Hash, PartialOrd, Ord)]
pub enum Scope {
    /// The reserved `core` library.
    Builtin,
    /// A named package.
    Workspace(String),
}

/// What a [`Scope`] says.
pub enum ScopeView {
    /// The reserved `core` library.
    Builtin,
    /// A named package.
    Workspace(Seq<char>),
}

impl View for Scope {
    type V = ScopeView;

    open spec fn view(&self) -> ScopeView {
        match *self {
            Scope::Builtin => ScopeView::Builtin,
            Scope::Workspace(p) => ScopeView::Workspace(p@),
        }
    }
}

/// A module's identity: a scope and the path within it.
#[derive(Debug, PartialEq, Eq, Hash, PartialOrd, Ord)]
pub struct ModuleId {
    /// Whose namespace the module lives in.
    pub scope: Scope,
    /// The path within the scope.
    pub path: Vec<String>,
}

/// What a [`ModuleId`] says.
pub struct ModuleView {
    /// Whose namespace the module lives in.
    pub scope: ScopeView,
    /// The path within the scope.
    pub path: Seq<Seq<char>>,
}

impl View for ModuleId {
    type V = ModuleView;

    open spec fn view(&self) -> ModuleView {
        ModuleView { scope: self.scope@, path: texts(self.path@) }
    }
}

/// The identity of the module that a path names: behind a leading `core` the
/// path is within the `core` library, any other path within the package.
pub open spec fn module_of(path: Seq<Seq<char>>, workspace: Seq<char>) -> ModuleView {
    if is_core(path) {
        ModuleView { scope: ScopeView::Builtin, path: path.skip(1) }
    } else {
        ModuleView { scope: ScopeView::Workspace(workspace), path }
    }
}

/// The path that names a module.
pub open spec fn path_of(m: ModuleView) -> Seq<Seq<char>> {
    match m.scope {
        ScopeView::Builtin => seq!["core"@] + m.path,
        ScopeView::Workspace(_) => m.path,
    }
}

/// The text of a module's identity.
pub open spec fn module_text(m: ModuleView) -> Seq<char> {
    match m.scope {
        ScopeView::Builtin => appended("core"@, m.path),
        ScopeView::Workspace(p) => appended("workspace::"@ + p, m.path),
    }
}

/// The path of the identity of a path is the path.
pub proof fn path_of_module_of(path: Seq<Seq<char>>, workspace: Seq<char>)
    ensures
        path_of(module_of(path, workspace)) == path,
{
    if is_core(path) {
        assert(seq!["core"@] + path.skip(1) =~= path);
    }
}

/// The identity of the path of an identity is the identity, unless a package
/// has a module whose path begins with `core`, which no path can name.
pub proof fn module_of_path_of(m: ModuleView, workspace: Seq<char>)
    requires
        m.scope matches ScopeView::Workspace(p) ==> p == workspace && !is_core(m.path),
    ensures
        module_of(path_of(m), workspace) == m,
{
    if m.scope is Builtin {
        assert((seq!["core"@] + m.path).skip(1) =~= m.path);
    }
}

impl ModuleId {
    /// The identity of the module that a path names within a package.
    pub fn from_module_path(path: &ModulePath, workspace: &str) -> (r: ModuleId)
        ensures
            r@ == module_of(path@, workspace@),
    {
        let (is_builtin, segments) = path.scope_relative();
        if is_builtin {
            ModuleId { scope: Scope::Builtin, path: segments }
        } else {
            ModuleId { scope: Scope::Workspace(owned(workspace)), path: segments }
        }
    }

    /// A module of the `core` library.
    pub fn builtin(segments: &[&str]) -> (r: ModuleId)
        ensures
            r@ == (ModuleView { scope: ScopeView::Builtin, path: str_texts(segments@) }),
    {
        let path = own_texts_from(segments, 0);
        assert(str_texts(segments@).skip(0) =~= str_texts(segments@));
        ModuleId { scope: Scope::Builtin, path }
    }

    /// The module `core::system`, under which the abilities of the platform
    /// are declared.
    pub fn core_system() -> (r: ModuleId)
        ensures
            r@ == (ModuleView { scope: ScopeView::Builtin, path: seq!["system"@] }),
    {
        let mut path: Vec<String> = Vec::new();
        path.push(owned("system"));
        assert(texts(path@) =~= seq!["system"@]);
        ModuleId { scope: Scope::Builtin, path }
    }

    /// The path that names the module, as text.
    pub fn module_path_string(&self) -> (r: String)
        ensures
            r@ == joined(path_of(self@)),
    {
        let segments = self.path_segments();
        join_texts(&segments)
    }

    /// The segments of the path that names the module.
    pub fn path_segments(&self) -> (r: Vec<String>)
        ensures
            texts(r@) == path_of(self@),
    {
        let mut rest = copy_texts(&self.path);
        match self.scope {
            Scope::Builtin => {
                let mut segments: Vec<String> = Vec::new();
                segments.push(owned("core"));
                let ghost tail = rest@;
                segments.append(&mut rest);
                assert(texts(segments@) =~= seq!["core"@] + texts(tail));
                segments
            },
            Scope::Workspace(_) => rest,
        }
    }

    /// The identity of the module that some segments name within a package.
    pub fn from_dotted_segments(segments: &[&str], workspace: &str) -> (r: ModuleId)
        ensures
            r@ == module_of(str_texts(segments@), workspace@),
    {
        if segments.len() > 0 && text_same(segments[0], "core") {
            assert(str_texts(segments@)[0] == "core"@);
            ModuleId { scope: Scope::Builtin, path: own_texts_from(segments, 1) }
        } else {
            let path = own_texts_from(segments, 0);
            assert(str_texts(segments@).skip(0) =~= str_texts(segments@));
            ModuleId { scope: Scope::Workspace(owned(workspace)), path }
        }
    }

    /// The path that names the module; a package's module without a path has
    /// none.
    pub fn to_module_path(&self) -> (r: Option<ModulePath>)
        ensures
            r is Some <==> path_of(self@).len() > 0,
            r matches Some(p) ==> p@ == path_of(self@),
    {
        let segments = self.path_segments();
        assert(texts(segments@).len() == segments@.len());
        ModulePath::from_segments(segments)
    }

    /// The identity as text.
    pub fn text(&self) -> (r: String)
        ensures
            r@ == module_text(self@),
    {
        let mut out = match &self.scope {
            Scope::Builtin => owned("core"),
            Scope::Workspace(p) => {
                let mut s = owned("workspace::");
                crate::text::push_text(&mut s, p.as_str());
                s
            },
        };
        append_texts(&mut out, &self.path);
        out
    }

    /// Whether two identities are the same.
    pub fn same(&self, other: &ModuleId) -> (r: bool)
        ensures
            r == (self@ == other@),
    {
        let scopes = match (&self.scope, &other.scope) {
            (Scope::Builtin, Scope::Builtin) => true,
            (Scope::Workspace(a), Scope::Workspace(b)) => text_same(a.as_str(), b.as_str()),
            _ => false,
        };
        scopes && texts_same(&self.path, &other.path)
    }

    /// A copy of the identity.
    pub fn copy(&self) -> (r: ModuleId)
        ensures
            r@ == self@,
    {
        let scope = match &self.scope {
            Scope::Builtin => Scope::Builtin,
            Scope::Workspace(p) => Scope::Workspace(owned(p.as_str())),
        };
        ModuleId { scope, path: copy_texts(&self.path) }
    }
}

/// The identity of an item: its module, and its path within the module.
#[derive(Debug, PartialEq, Eq, Hash, PartialOrd, Ord)]
pub struct Fqn {
    /// The defining module.
    pub module: ModuleId,
    /// The path within the module: one segment or more.
    pub ident: Vec<String>,
}

/// What an [`Fqn`] says.
pub struct FqnView {
    /// The defining module.
    pub module: ModuleView,
    /// The path within the module.
    pub ident: Seq<Seq<char>>,
}

impl View for Fqn {
    type V = FqnView;

    open spec fn view(&self) -> FqnView {
        FqnView { module: self.module@, ident: texts(self.ident@) }
    }
}

/// The text of an item's identity.
pub open spec fn fqn_text(f: FqnView) -> Seq<char> {
    appended(module_text(f.module), f.ident)
}

impl Fqn {
    /// The identity of an item of a module.
    pub fn new(module: ModuleId, ident: Vec<String>) -> (r: Fqn)
        ensures
            r.module == module,
            r.ident == ident,
    {
        Fqn { module, ident }
    }

    /// The item's own name: the last segment.
    pub fn name(&self) -> (r: &str)
        ensures
            r@ == (if self@.ident.len() > 0 {
                self@.ident.last()
            } else {
                ""@
            }),
    {
        if self.ident.len() > 0 {
            self.ident[self.ident.len() - 1].as_str()
        } else {
            ""
        }
    }

    /// The identity as text.
    pub fn text(&self) -> (r: String)
        ensures
            r@ == fqn_text(self@),
    {
        let mut out = self.module.text();
        append_texts(&mut out, &self.ident);
        out
    }

    /// Whether two identities are the same.
    pub fn same(&self, other: &Fqn) -> (r: bool)
        ensures
            r == (self@ == other@),
    {
        self.module.same(&other.module) && texts_same(&self.ident, &other.ident)
    }

    /// A copy of the identity.
    pub fn copy(&self) -> (r: Fqn)
        ensures
            r@ == self@,
    {
        Fqn { module: self.module.copy(), ident: copy_texts(&self.ident) }
    }
}

/// The key of the tables of items: an item's identity, or a bare string.
#[derive(Debug, PartialEq, Eq, Hash)]
pub enum NameKey {
    /// A bare string: a dispatch symbol, a local binding, or a reference that
    /// is not resolved.
    Bare(String),
    /// An item's identity.
    Item(Fqn),
}

/// What a [`NameKey`] says.
pub enum KeyView {
    /// A bare string.
    Bare(Seq<char>),
    /// An item's identity.
    Item(FqnView),
}

impl View for NameKey {
    type V = KeyView;

    open spec fn view(&self) -> KeyView {
        match *self {
            NameKey::Bare(s) => KeyView::Bare(s@),
            NameKey::Item(f) => KeyView::Item(f@),
        }
    }
}

/// The text of a key.
pub open spec fn key_text(k: KeyView) -> Seq<char> {
    match k {
        KeyView::Bare(s) => s,
        KeyView::Item(f) => fqn_text(f),
    }
}

impl NameKey {
    /// The key as text.
    pub fn text(&self) -> (r: String)
        ensures
            r@ == key_text(self@),
    {
        match self {
            NameKey::Bare(s) => owned(s.as_str()),
            NameKey::Item(f) => f.text(),
        }
    }

    /// Whether two keys are the same.
    pub fn same(&self, other: &NameKey) -> (r: bool)
        ensures
            r == (self@ == other@),
    {
        match (self, other) {
            (NameKey::Bare(a), NameKey::Bare(b)) => text_same(a.as_str(), b.as_str()),
            (NameKey::Item(a), NameKey::Item(b)) => a.same(b),
            _ => false,
        }
    }

    /// A copy of the key.
    pub fn copy(&self) -> (r: NameKey)
        ensures
            r@ == self@,
    {
        match self {
            NameKey::Bare(s) => NameKey::Bare(owned(s.as_str())),
            NameKey::Item(f) => NameKey::Item(f.copy()),
        }
    }
}

/// A table keyed by names. Of two entries with the same key the later counts.
#[derive(Debug)]
pub struct NameTable<V> {
    /// The entries, in the order they were added.
    pub entries: Vec<(NameKey, V)>,
}

/// What the entries of a table bind.
pub open spec fn bindings<V>(s: Seq<(NameKey, V)>) -> Map<KeyView, V>
    decreases s.len(),
{
    if s.len() == 0 {
        Map::empty()
    } else {
        bindings(s.drop_last()).insert(s.last().0@, s.last().1)
    }
}

impl<V> View for NameTable<V> {
    type V = Map<KeyView, V>;

    open spec fn view(&self) -> Map<KeyView, V> {
        bindings(self.entries@)
    }
}

impl<V> NameTable<V> {
    /// An empty table.
    pub fn new() -> (r: NameTable<V>)
        ensures
            r@ == Map::<KeyView, V>::empty(),
            r.entries@ == Seq::<(NameKey, V)>::empty(),
    {
        NameTable { entries: Vec::new() }
    }

    /// Bind a key.
    pub fn insert(&mut self, key: NameKey, value: V)
        ensures
            final(self)@ == old(self)@.insert(key@, value),
            final(self).entries@ == old(self).entries@.push((key, value)),
    {
        let ghost was = self.entries@;
        self.entries.push((key, value));
        assert(self.entries@.drop_last() =~= was);
    }

    /// What a key is bound to.
    pub fn get(&self, key: &NameKey) -> (r: Option<&V>)
        ensures
            r == (if self@.contains_key(key@) {
                Some(&self@[key@])
            } else {
                None
            }),
    {
        let mut n: usize = self.entries.len();
        assert(self.entries@.take(n as int) =~= self.entries@);
        while n > 0
            invariant
                n <= self.entries@.len(),
                bindings(self.entries@.take(n as int)).contains_key(key@) == self@.contains_key(
                    key@,
                ),
                self@.contains_key(key@) ==> bindings(self.entries@.take(n as int))[key@]
                    == self@[key@],
            decreases n,
        {
            assert(self.entries@.take(n as int).drop_last() =~= self.entries@.take(n - 1));
            assert(self.entries@.take(n as int).last() == self.entries@[n - 1]);
            n = n - 1;
            if self.entries[n].0.same(key) {
                return Some(&self.entries[n].1);
            }
        }
        None
    }

    /// Whether a key is bound.
    pub fn contains_key(&self, key: &NameKey) -> (r: bool)
        ensures
            r == self@.contains_key(key@),
    {
        self.get(key).is_some()
    }
}

} // verus!
