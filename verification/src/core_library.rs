//! The `core` library: built-in modules under the reserved `core` root.
//!
//! The shape of the library is that of its source tree. Every source file is a
//! module: `a/b.ab` is the module `core::a::b`, and `a/main.ab` is the directory
//! module `core::a`. The host hands over the files; their sources are parsed
//! elsewhere.

use vstd::prelude::*;
use vstd::utf8::encode_utf8;

use crate::ast::Module;
use crate::compiler::intrinsics::{arity_views, get_intrinsics_for_module, listed, INTRINSIC_COUNT};
use crate::module_env::NativeBinding;
use crate::module_paths::{
    copy_texts, copy_texts_from, join_texts, joined, own_texts_from, str_texts, texts, ModulePath,
};
use crate::order::{enumerates, text_before, text_same};
use crate::ordmap::{picked, picked_enumerates, OrdMap};
use crate::sorting::{single_ranks, sorted, stable_sort, Ranked};
use crate::text::{chars_of, owned, push_text, split_all, split_at_all, text_between};
use crate::wire::contents;

verus! {

broadcast use vstd::string::group_string_axioms;

/// A source file of the library.
#[derive(Debug, PartialEq, Eq)]
pub struct EmbeddedFile {
    /// The path below the root of the source tree, with `/` between components.
    pub path: String,
    /// The source.
    pub source: String,
}

/// A module of the library.
#[derive(Debug)]
pub struct CoreModule {
    /// The path, which begins with `core`.
    pub path: ModulePath,
    /// The source.
    pub source: String,
    /// Whether it stands for a directory.
    pub is_dir_module: bool,
}

/// What a [`CoreModule`] says.
pub struct CoreModuleView {
    /// The path.
    pub path: Seq<Seq<char>>,
    /// The source.
    pub source: Seq<char>,
    /// Whether it stands for a directory.
    pub is_dir_module: bool,
}

impl View for CoreModule {
    type V = CoreModuleView;

    open spec fn view(&self) -> CoreModuleView {
        CoreModuleView {
            path: self.path@,
            source: self.source@,
            is_dir_module: self.is_dir_module,
        }
    }
}

/// What modules say.
pub open spec fn core_views(s: Seq<CoreModule>) -> Seq<CoreModuleView> {
    Seq::new(s.len(), |i: int| s[i]@)
}

impl Ranked for CoreModule {
    open spec fn rank(&self) -> Seq<Seq<u8>> {
        seq![encode_utf8(joined(self.path@))]
    }

    fn ranks_before(&self, other: &Self) -> (r: bool) {
        let a = self.path.text();
        let b = other.path.text();
        proof {
            single_ranks(encode_utf8(a@), encode_utf8(b@));
        }
        text_before(a.as_str(), b.as_str())
    }
}

/// A failure to find a module.
#[derive(Debug, PartialEq, Eq)]
pub enum CoreLibraryError {
    /// There is no such module.
    ModuleNotFound(String),
}

impl CoreLibraryError {
    /// The text of the error.
    pub open spec fn text(self) -> Seq<char> {
        match self {
            CoreLibraryError::ModuleNotFound(name) => "core module not found: "@ + name@,
        }
    }

    /// The text of the error.
    pub fn message(&self) -> (r: String)
        ensures
            r@ == self.text(),
    {
        match self {
            CoreLibraryError::ModuleNotFound(name) => {
                let mut out = owned("core module not found: ");
                push_text(&mut out, name.as_str());
                out
            },
        }
    }
}

// ── files and modules ───────────────────────────────────────────────────────

/// Text without a suffix, if it ends with it.
pub open spec fn strip_suffix(s: Seq<char>, suffix: Seq<char>) -> Option<Seq<char>> {
    if suffix.is_suffix_of(s) {
        Some(s.take(s.len() - suffix.len()))
    } else {
        None
    }
}

/// Text without a suffix, if it ends with it.
fn stripped_suffix(text: &str, suffix: &str) -> (r: Option<String>)
    ensures
        match strip_suffix(text@, suffix@) {
            Some(t) => r matches Some(u) && u@ == t,
            None => r is None,
        },
{
    let chars = chars_of(text);
    let tail = chars_of(suffix);
    if chars.len() < tail.len() {
        return None;
    }
    let at: usize = chars.len() - tail.len();
    let end = text_between(chars.as_slice(), at, chars.len());
    assert(suffix@.is_suffix_of(text@) <==> end@ == suffix@) by {
        if suffix@.is_suffix_of(text@) {
            assert(end@ =~= suffix@);
        }
        if end@ == suffix@ {
            assert(suffix@ =~= text@.subrange(at as int, text@.len() as int));
        }
    }
    if text_same(end.as_str(), suffix) {
        let r = text_between(chars.as_slice(), 0, at);
        assert(r@ =~= text@.take(at as int));
        Some(r)
    } else {
        None
    }
}

/// The module that a source file is, by its path below the source tree, and
/// whether it stands for its directory. The file `main.ab` of a directory does.
pub open spec fn file_module(path: Seq<char>) -> Option<(Seq<Seq<char>>, bool)> {
    let parts = split_all(path, '/');
    match strip_suffix(parts.last(), ".ab"@) {
        None => None,
        Some(stem) => if stem.len() == 0 {
            None
        } else if stem == "main"@ {
            Some((parts.drop_last(), true))
        } else {
            Some((parts.drop_last().push(stem), false))
        },
    }
}

/// The module of the library that a source file is.
pub open spec fn core_module_of(path: Seq<char>) -> Option<(Seq<Seq<char>>, bool)> {
    match file_module(path) {
        Some((segments, is_dir)) => Some((seq!["core"@] + segments, is_dir)),
        None => None,
    }
}

proof fn lemma_split_some(s: Seq<char>, c: char)
    ensures
        split_all(s, c).len() > 0,
{
    let at = crate::text::index_from(s, c, 0);
    if 0 <= at < s.len() {
        assert(split_all(s, c).len() == 1 + split_all(s.skip(at + 1), c).len());
    }
}

/// The module of the library that a source file is.
fn core_module_path(path: &str) -> (r: Option<(ModulePath, bool)>)
    ensures
        match core_module_of(path@) {
            Some((p, d)) => r matches Some((m, e)) && m@ == p && e == d,
            None => r is None,
        },
{
    let mut parts = split_at_all(path, '/');
    let ghost all = contents(parts@);
    proof {
        lemma_split_some(path@, '/');
    }
    let file = match parts.pop() {
        Some(f) => f,
        None => {
            return None;
        },
    };
    assert(contents(parts@) =~= all.drop_last());
    let stem = match stripped_suffix(file.as_str(), ".ab") {
        Some(s) => s,
        None => {
            return None;
        },
    };
    let chars = chars_of(stem.as_str());
    if chars.len() == 0 {
        return None;
    }
    let mut segments: Vec<String> = Vec::new();
    segments.push(owned("core"));
    let ghost dirs = parts@;
    segments.append(&mut parts);
    assert(texts(segments@) =~= seq!["core"@] + all.drop_last());
    if text_same(stem.as_str(), "main") {
        let p = ModulePath { segments };
        return Some((p, true));
    }
    segments.push(stem);
    assert(texts(segments@) =~= seq!["core"@] + all.drop_last().push(stem@));
    Some((ModulePath { segments }, false))
}

/// The modules of source files, in the order of the files.
pub open spec fn file_modules(files: Seq<EmbeddedFile>) -> Seq<CoreModuleView>
    decreases files.len(),
{
    if files.len() == 0 {
        seq![]
    } else {
        let before = file_modules(files.drop_last());
        match core_module_of(files.last().path@) {
            Some((path, is_dir_module)) => before.push(
                CoreModuleView { path, source: files.last().source@, is_dir_module },
            ),
            None => before,
        }
    }
}

/// The name of a module of the library below the root; the root's is empty.
pub open spec fn relative_name(m: CoreModuleView) -> Seq<char> {
    joined(m.path.skip(1))
}

/// The last module of a name.
pub open spec fn last_named(ms: Seq<CoreModuleView>, name: Seq<char>) -> Option<CoreModuleView>
    decreases ms.len(),
{
    if ms.len() == 0 {
        None
    } else if relative_name(ms.last()) == name {
        Some(ms.last())
    } else {
        last_named(ms.drop_last(), name)
    }
}

/// The modules of the `core` library, in the order of their paths.
#[derive(Debug)]
pub struct CoreLibrary {
    /// The modules.
    pub modules: Vec<CoreModule>,
}

impl View for CoreLibrary {
    type V = Seq<CoreModuleView>;

    open spec fn view(&self) -> Seq<CoreModuleView> {
        core_views(self.modules@)
    }
}

impl CoreLibrary {
    /// Whether every path begins with `core`.
    pub open spec fn rooted(&self) -> bool {
        forall|i: int|
            0 <= i < self.modules@.len() ==> crate::module_paths::is_core(
                (#[trigger] self.modules@[i]).path@,
            )
    }

    /// The library of some source files. Files that are no modules are passed
    /// over.
    pub fn new(files: &Vec<EmbeddedFile>) -> (r: CoreLibrary)
        ensures
            r.rooted(),
            exists|ms: Seq<CoreModule>| #[trigger]
                sorted(ms) == r.modules@ && core_views(ms) == file_modules(files@),
    {
        let mut modules: Vec<CoreModule> = Vec::new();
        let mut i: usize = 0;
        assert(files@.take(0) =~= seq![]);
        assert(core_views(modules@) =~= seq![]);
        while i < files.len()
            invariant
                i <= files@.len(),
                core_views(modules@) == file_modules(files@.take(i as int)),
                forall|k: int|
                    0 <= k < modules@.len() ==> crate::module_paths::is_core(
                        (#[trigger] modules@[k]).path@,
                    ),
            decreases files@.len() - i,
        {
            assert(files@.take(i + 1).drop_last() =~= files@.take(i as int));
            let ghost was = core_views(modules@);
            if let Some((path, is_dir_module)) = core_module_path(files[i].path.as_str()) {
                let m = CoreModule {
                    path,
                    source: owned(files[i].source.as_str()),
                    is_dir_module,
                };
                let ghost view = m@;
                modules.push(m);
                assert(core_views(modules@) =~= was.push(view));
            }
            i = i + 1;
        }
        assert(files@.take(files@.len() as int) =~= files@);
        let ghost ms = modules@;
        let modules = stable_sort(modules);
        proof {
            crate::sorting::sorted_is_ranked(ms);
            assert forall|k: int| 0 <= k < modules@.len() implies crate::module_paths::is_core(
                (#[trigger] modules@[k]).path@,
            ) by {
                lemma_sorted_member(ms, modules@[k]);
                let j = choose|j: int| 0 <= j < ms.len() && ms[j] == modules@[k];
                assert(crate::module_paths::is_core(ms[j].path@));
            }
        }
        CoreLibrary { modules }
    }

    /// Where the last module of a name stands.
    fn find(&self, name: &str) -> (r: Option<usize>)
        requires
            self.rooted(),
        ensures
            match r {
                Some(i) => i < self.modules@.len() && last_named(self@, name@) == Some(
                    self.modules@[i as int]@,
                ),
                None => last_named(self@, name@) is None,
            },
    {
        let ghost all = self@;
        let mut n: usize = self.modules.len();
        assert(all.take(n as int) =~= all);
        while n > 0
            invariant
                n <= self.modules@.len(),
                self.rooted(),
                all == self@,
                last_named(all, name@) == last_named(all.take(n as int), name@),
            decreases n,
        {
            assert(all.take(n as int).drop_last() =~= all.take(n - 1));
            n = n - 1;
            assert(crate::module_paths::is_core(self.modules@[n as int].path@));
            let own = relative_name_of(&self.modules[n]);
            if text_same(own.as_str(), name) {
                return Some(n);
            }
        }
        None
    }

    /// Whether the library has a module, by its path below the root.
    pub fn has_module(&self, path: &[&str]) -> (r: bool)
        requires
            self.rooted(),
        ensures
            r == (last_named(self@, joined(str_texts(path@))) is Some),
    {
        let name = path_to_name(path);
        self.find(name.as_str()).is_some()
    }

    /// The source of a module, by its path below the root.
    pub fn get_source(&self, path: &[&str]) -> (r: Result<&str, CoreLibraryError>)
        requires
            self.rooted(),
        ensures
            match last_named(self@, joined(str_texts(path@))) {
                Some(m) => r matches Ok(s) && s@ == m.source,
                None => r matches Err(CoreLibraryError::ModuleNotFound(n)) && n@ == joined(
                    str_texts(path@),
                ),
            },
    {
        let name = path_to_name(path);
        match self.find(name.as_str()) {
            Some(i) => Ok(self.modules[i].source.as_str()),
            None => Err(CoreLibraryError::ModuleNotFound(name)),
        }
    }

    /// The names of the modules below the root, each once, in order.
    pub fn available_modules(&self) -> (r: Vec<String>)
        requires
            self.rooted(),
        ensures
            enumerates(
                texts(r@),
                Set::new(|n: Seq<char>| n.len() > 0 && last_named(self@, n) is Some),
            ),
    {
        let ghost all = self@;
        let mut names: OrdMap<String, usize> = OrdMap::new();
        let mut i: usize = 0;
        assert(all.take(0) =~= seq![]);
        while i < self.modules.len()
            invariant
                i <= self.modules@.len(),
                self.rooted(),
                all == self@,
                forall|n: Seq<char>| #[trigger]
                    names@.contains_key(n) <==> last_named(all.take(i as int), n) is Some,
            decreases self.modules@.len() - i,
        {
            assert(all.take(i + 1).drop_last() =~= all.take(i as int));
            assert(all.take(i + 1).last() == self.modules@[i as int]@);
            assert(crate::module_paths::is_core(self.modules@[i as int].path@));
            names.insert(relative_name_of(&self.modules[i]), i);
            i = i + 1;
        }
        assert(all.take(all.len() as int) =~= all);
        let entries = names.items();
        let ghost keep = |n: Seq<char>| n.len() > 0;
        let mut out: Vec<String> = Vec::new();
        let mut k: usize = 0;
        assert(texts(out@) =~= seq![]);
        while k < entries.len()
            invariant
                k <= entries@.len(),
                keep == (|n: Seq<char>| n.len() > 0),
                texts(out@) == picked(entries@, k as int, keep),
            decreases entries@.len() - k,
        {
            let ghost was = texts(out@);
            let chars = chars_of(entries[k].0.as_str());
            if chars.len() > 0 {
                out.push(owned(entries[k].0.as_str()));
                assert(texts(out@) =~= was.push(entries@[k as int].0@));
            }
            k = k + 1;
        }
        proof {
            picked_enumerates(entries@, keep);
            let want = Set::new(|n: Seq<char>| n.len() > 0 && last_named(self@, n) is Some);
            let have = Set::new(
                |n: Seq<char>|
                    crate::ordmap::entries_map(entries@).contains_key(n) && keep(n),
            );
            assert forall|n: Seq<char>| want.contains(n) == have.contains(n) by {
                assert(names@.contains_key(n) <==> last_named(all, n) is Some);
            }
            assert(want =~= have);
        }
        out
    }

    /// The path of a module, by its path below the root.
    pub fn to_module_path(path: &[&str]) -> (r: ModulePath)
        ensures
            r@ == seq!["core"@] + str_texts(path@),
    {
        let mut segments: Vec<String> = Vec::new();
        segments.push(owned("core"));
        let mut rest = own_texts_from(path, 0);
        let ghost tail = texts(rest@);
        let ghost parts = rest@;
        assert(str_texts(path@).skip(0) =~= str_texts(path@));
        segments.append(&mut rest);
        assert(texts(segments@) =~= seq!["core"@] + tail);
        ModulePath { segments }
    }
}

proof fn lemma_sorted_member<T: Ranked>(s: Seq<T>, x: T)
    requires
        sorted(s).contains(x),
    ensures
        s.contains(x),
{
    crate::sorting::sorted_is_ranked(s);
    assert(sorted(s).to_multiset().count(x) > 0) by {
        broadcast use vstd::seq_lib::group_to_multiset_ensures;

        assert(sorted(s).contains(x));
    }
    assert(s.to_multiset().count(x) > 0);
    broadcast use vstd::seq_lib::group_to_multiset_ensures;

}

/// The name of a module of the library below the root.
fn relative_name_of(m: &CoreModule) -> (r: String)
    requires
        m.path@.len() > 0,
    ensures
        r@ == relative_name(m@),
{
    assert(m.path.segments@.len() == m.path@.len());
    let rest = copy_texts_from(&m.path.segments, 1);
    join_texts(&rest)
}

/// The name of a module, by its path below the root.
fn path_to_name(path: &[&str]) -> (r: String)
    ensures
        r@ == joined(str_texts(path@)),
{
    let segments = own_texts_from(path, 0);
    assert(str_texts(path@).skip(0) =~= str_texts(path@));
    join_texts(&segments)
}

// ── registration ────────────────────────────────────────────────────────────

/// How a module is registered: its path, its tree, whether it stands for a
/// directory, and the built-in functions that it exports besides what it declares.
#[derive(Debug)]
pub struct Registration {
    /// The path.
    pub path: ModulePath,
    /// The tree.
    pub module: Module,
    /// Whether it stands for a directory.
    pub is_dir_module: bool,
    /// The built-in functions, with their numbers of arguments.
    pub intrinsics: Vec<(&'static str, u8)>,
}

/// What the host binds a native function of a module to.
#[derive(Debug)]
pub struct NamedNative {
    /// The module that declares the function.
    pub module: ModulePath,
    /// The name of the function.
    pub name: String,
    /// What it is bound to.
    pub binding: NativeBinding,
}

/// The modules of a build, what the host binds their native functions to, and the
/// prelude.
#[derive(Debug)]
pub struct ModuleRegistry {
    /// The modules, in the order in which they were registered.
    pub modules: Vec<Registration>,
    /// What the host binds native functions to.
    pub natives: Vec<NamedNative>,
    /// The module whose exports every package sees, if there is one.
    pub prelude: Option<ModulePath>,
}

impl ModuleRegistry {
    /// A registry without modules.
    pub fn new() -> (r: ModuleRegistry)
        ensures
            r.modules@ == Seq::<Registration>::empty(),
            r.natives@ == Seq::<NamedNative>::empty(),
            r.prelude is None,
    {
        ModuleRegistry { modules: Vec::new(), natives: Vec::new(), prelude: None }
    }
}

/// Whether a registration is that of a module of the library, given what parsing its
/// source gave.
pub open spec fn registers(
    r: Registration,
    m: CoreModuleView,
    parsed: Result<Module, String>,
) -> bool {
    &&& r.path@ == m.path
    &&& parsed == Ok::<Module, String>(r.module)
    &&& r.is_dir_module == m.is_dir_module
    &&& arity_views(r.intrinsics@) == listed(m.path, INTRINSIC_COUNT as int)
}

/// Whether what parsing the sources gave is all that is needed: it goes up to the
/// last module, or to one that did not parse.
pub open spec fn parsed_enough(n: nat, parsed: Seq<Result<Module, String>>) -> bool {
    parsed.len() == n || (0 < parsed.len() < n && parsed.last() is Err)
}

/// Register the modules of the library, in order, given what the host binds their
/// native functions to and what parsing their sources gave, and make the library's
/// prelude that of every package. The paths of the modules. The first module that
/// did not parse ends it, with its name and error; the native functions, and the
/// modules before it, stay registered.
pub fn register_core_modules(
    registry: &mut ModuleRegistry,
    library: &CoreLibrary,
    natives: Vec<NamedNative>,
    parsed: Vec<Result<Module, String>>,
) -> (r: Result<Vec<ModulePath>, (String, String)>)
    requires
        library.rooted(),
        parsed_enough(library.modules@.len(), parsed@),
    ensures
        final(registry).natives@ == old(registry).natives@ + natives@,
        final(registry).modules@.len() >= old(registry).modules@.len(),
        final(registry).modules@.take(old(registry).modules@.len() as int) == old(
            registry,
        ).modules@,
        ({
            let more = final(registry).modules@.skip(old(registry).modules@.len() as int);
            let n = more.len() as int;
            &&& n <= parsed@.len()
            &&& forall|i: int|
                0 <= i < n ==> registers(#[trigger] more[i], library@[i], parsed@[i])
            &&& match r {
                Ok(paths) => {
                    &&& n == library@.len()
                    &&& paths@.len() == n
                    &&& forall|i: int| 0 <= i < n ==> (#[trigger] paths@[i])@ == library@[i].path
                    &&& final(registry).prelude matches Some(p) && p@ == seq!["core"@, "prelude"@]
                },
                Err((name, error)) => {
                    &&& n < parsed@.len()
                    &&& parsed@[n] == Err::<Module, String>(error)
                    &&& name@ == relative_name(library@[n])
                    &&& final(registry).prelude == old(registry).prelude
                },
            }
        }),
{
    let ghost start = registry.modules@;
    let ghost all = parsed@;
    let ghost mut more: Seq<Registration> = seq![];
    let ghost bound = registry.natives@ + natives@;
    let mut bindings = natives;
    let mut trees = parsed;
    registry.natives.append(&mut bindings);
    let mut paths: Vec<ModulePath> = Vec::new();
    let mut i: usize = 0;
    assert(start + more =~= start);
    assert(all.skip(0) =~= all);
    while i < library.modules.len()
        invariant
            i <= library.modules@.len(),
            i <= all.len(),
            library.rooted(),
            parsed_enough(library.modules@.len(), all),
            all == parsed@,
            trees@ == all.skip(i as int),
            more.len() == i,
            start == old(registry).modules@,
            registry.modules@ == start + more,
            bound == old(registry).natives@ + natives@,
            registry.natives@ == bound,
            registry.prelude == old(registry).prelude,
            paths@.len() == i,
            forall|k: int| 0 <= k < i ==> (#[trigger] paths@[k])@ == library@[k].path,
            forall|k: int|
                0 <= k < i ==> registers(#[trigger] more[k], library@[k], all[k]),
        decreases library.modules@.len() - i,
    {
        let m = &library.modules[i];
        assert(crate::module_paths::is_core(library.modules@[i as int].path@));
        proof {
            if i == all.len() {
                assert(registers(more[i - 1], library@[i - 1], all[i - 1]));
            }
        }
        assert(trees@[0] == all[i as int]);
        match trees.remove(0) {
            Err(error) => {
                let name = relative_name_of(m);
                assert(registry.modules@.skip(start.len() as int) =~= more);
                assert(registry.modules@.take(start.len() as int) =~= start);
                return Err((name, error));
            },
            Ok(module) => {
                assert(trees@ =~= all.skip(i + 1));
                let segments = copy_texts(&m.path.segments);
                let intrinsics = intrinsics_of(&segments);
                paths.push(ModulePath { segments: copy_texts(&m.path.segments) });
                let one = Registration {
                    path: ModulePath { segments },
                    module,
                    is_dir_module: m.is_dir_module,
                    intrinsics,
                };
                proof {
                    assert((start + more).push(one) =~= start + more.push(one));
                    more = more.push(one);
                }
                registry.modules.push(one);
                i = i + 1;
            },
        }
    }
    registry.prelude = Some(prelude_path());
    assert(registry.modules@.skip(start.len() as int) =~= more);
    assert(registry.modules@.take(start.len() as int) =~= start);
    Ok(paths)
}

/// The built-in functions of a module.
fn intrinsics_of(path: &Vec<String>) -> (r: Vec<(&'static str, u8)>)
    ensures
        arity_views(r@) == listed(texts(path@), INTRINSIC_COUNT as int),
{
    let mut segments: Vec<&str> = Vec::new();
    let mut i: usize = 0;
    while i < path.len()
        invariant
            i <= path@.len(),
            segments@.len() == i,
            forall|k: int| 0 <= k < i ==> (#[trigger] segments@[k])@ == path@[k]@,
        decreases path@.len() - i,
    {
        segments.push(path[i].as_str());
        i = i + 1;
    }
    assert(str_texts(segments@) =~= texts(path@));
    get_intrinsics_for_module(segments.as_slice())
}

/// The path of the prelude, which every package sees unless it says otherwise.
fn prelude_path() -> (r: ModulePath)
    ensures
        r@ == seq!["core"@, "prelude"@],
{
    let r = CoreLibrary::to_module_path(&["prelude"]);
    assert(r@ =~= seq!["core"@, "prelude"@]);
    r
}

/// Register a module of declarations alone at a path, given what parsing its source
/// gave. The path; the joined path and the error where the source did not parse,
/// and nothing is registered then.
pub fn register_declaration_module(
    registry: &mut ModuleRegistry,
    segments: &[&str],
    parsed: Result<Module, String>,
) -> (r: Result<ModulePath, (String, String)>)
    requires
        segments@.len() > 0,
    ensures
        final(registry).natives == old(registry).natives,
        final(registry).prelude == old(registry).prelude,
        match parsed {
            Ok(module) => {
                &&& r matches Ok(p) && p@ == str_texts(segments@)
                &&& final(registry).modules@.len() == old(registry).modules@.len() + 1
                &&& final(registry).modules@.drop_last() == old(registry).modules@
                &&& final(registry).modules@.last().path@ == str_texts(segments@)
                &&& final(registry).modules@.last().module == module
                &&& !final(registry).modules@.last().is_dir_module
                &&& final(registry).modules@.last().intrinsics@.len() == 0
            },
            Err(e) => {
                &&& r matches Err((name, error)) && error == e && name@ == joined(
                    str_texts(segments@),
                )
                &&& final(registry).modules@ == old(registry).modules@
            },
        },
{
    match parsed {
        Err(error) => Err((path_to_name(segments), error)),
        Ok(module) => {
            assert(str_texts(segments@).skip(0) =~= str_texts(segments@));
            let path = ModulePath { segments: own_texts_from(segments, 0) };
            registry.modules.push(
                Registration {
                    path: ModulePath { segments: own_texts_from(segments, 0) },
                    module,
                    is_dir_module: false,
                    intrinsics: Vec::new(),
                },
            );
            assert(registry.modules@.drop_last() =~= old(registry).modules@);
            Ok(path)
        },
    }
}

} // verus!
