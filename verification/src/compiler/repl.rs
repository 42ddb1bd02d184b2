//! Compiling for an interactive session: expressions and single definitions,
//! against what the session has defined so far.

use vstd::prelude::*;

use crate::ast::{Expr, FunctionDef, Item, ItemKind};
use crate::bytecode::{CompiledFunction, FunctionView};
use crate::compiler::code::{lower, lowered_code, Op, Opcode};
use crate::compiler::codegen::{expr_code, with_params};
use crate::compiler::context::{
    assoc_set, empty_scope, empty_tables, AbilityView, CompiledAbilityInfo, FunctionCompiler,
    ModuleContext, ModuleTables, TablesView,
};
use crate::compiler::dicts::{build, built, function_of, internal_at, reached, Gen};
use crate::compiler::entry::no_bodies;
use crate::compiler::error::{CompileError, ErrorView};
use crate::compiler::exports::{
    arity_signature, export_views, generate_intrinsic_signature, line_exports,
    parse_module_exports, ExportView, ModuleExport, ModuleExportKind, ModuleValue,
    ModuleValueView,
};
use crate::compiler::expr::compile_expr;
use crate::compiler::hash::{compute_temporary_hash, key_hashes, temporary_hash};
use crate::compiler::intrinsics::{arity_views, listed, INTRINSIC_COUNT};
use crate::compiler::lambdas::alloc_params;
use crate::compiler::module_output::name_map;
use crate::core_library::{last_named, CoreLibrary, CoreModuleView};
use crate::digest::Digest;
use crate::fqn::{KeyView, NameKey, NameTable};
use crate::module_paths::{str_texts, texts};
use crate::order::{enumerates, text_same};
use crate::ordmap::{entries_map, entry_found, has_key, key_position, keys_increase, Key, OrdMap};
use crate::text::{chars_of, owned, push_text, text_between, text_lines};

verus! {

broadcast use vstd::string::group_string_axioms;

/// What a name of the session is.
#[derive(Debug, Clone, Copy, PartialEq, Eq, Structural)]
pub enum ReplItemKind {
    /// A function that can be called with arguments.
    Function,
    /// A constant, which is evaluated where it is referred to.
    Constant,
}

/// What a session has defined so far.
#[derive(Debug)]
pub struct ReplContext {
    /// The hashes of functions and constants, by their names.
    pub function_hashes: OrdMap<String, Digest>,
    /// What the names are.
    pub item_kinds: OrdMap<String, ReplItemKind>,
    /// The modules that can be looked into, by their paths.
    pub modules: OrdMap<String, ModuleValue>,
    /// The abilities that are always there, by their names.
    pub prelude_abilities: Vec<(String, CompiledAbilityInfo)>,
}

/// What a [`ReplContext`] says.
pub struct ReplView {
    /// The hashes of functions and constants, by their names.
    pub hashes: Map<Seq<char>, Seq<u8>>,
    /// What the names are.
    pub kinds: Map<Seq<char>, ReplItemKind>,
    /// The modules that can be looked into, by their paths.
    pub modules: Map<Seq<char>, ModuleValueView>,
    /// The abilities that are always there, by their names.
    pub abilities: Seq<(Seq<char>, AbilityView)>,
}

/// What modules by their paths say.
pub open spec fn module_map(m: Map<Seq<char>, ModuleValue>) -> Map<Seq<char>, ModuleValueView> {
    m.map_values(|v: ModuleValue| v@)
}

/// What abilities by their names say.
pub open spec fn named_abilities(s: Seq<(String, CompiledAbilityInfo)>) -> Seq<
    (Seq<char>, AbilityView),
> {
    Seq::new(s.len(), |i: int| (s[i].0@, s[i].1@))
}

impl View for ReplContext {
    type V = ReplView;

    open spec fn view(&self) -> ReplView {
        ReplView {
            hashes: name_map(self.function_hashes@),
            kinds: self.item_kinds@,
            modules: module_map(self.modules@),
            abilities: named_abilities(self.prelude_abilities@),
        }
    }
}

/// A session in which nothing is defined.
pub open spec fn empty_session() -> ReplView {
    ReplView {
        hashes: Map::empty(),
        kinds: Map::empty(),
        modules: Map::empty(),
        abilities: seq![],
    }
}

/// A session with one more name.
pub open spec fn with_item(v: ReplView, name: Seq<char>, hash: Seq<u8>, kind: ReplItemKind) -> ReplView {
    ReplView {
        hashes: v.hashes.insert(name, hash),
        kinds: v.kinds.insert(name, kind),
        ..v
    }
}

/// A session with one more module.
pub open spec fn with_module(v: ReplView, path: Seq<char>, m: ModuleValueView) -> ReplView {
    ReplView { modules: v.modules.insert(path, m), ..v }
}

/// The position of the last `::` before a position.
pub open spec fn last_separator(s: Seq<char>, n: int) -> Option<int>
    decreases n,
{
    if n <= 0 {
        None
    } else if n + 1 <= s.len() && s[n - 1] == ':' && s[n] == ':' {
        Some(n - 1)
    } else {
        last_separator(s, n - 1)
    }
}

/// The kind of the first export of a name, from a position on.
pub open spec fn export_kind(es: Seq<ExportView>, name: Seq<char>, i: int) -> Option<
    ModuleExportKind,
>
    decreases es.len() - i,
{
    if i < 0 || i >= es.len() {
        None
    } else if es[i].name == name {
        Some(es[i].kind)
    } else {
        export_kind(es, name, i + 1)
    }
}

/// The kind of the member of a module that a path names.
pub open spec fn member_kind(v: ReplView, path: Seq<char>) -> Option<ModuleExportKind> {
    match last_separator(path, path.len() as int) {
        None => None,
        Some(at) => if v.modules.contains_key(path.take(at)) {
            export_kind(v.modules[path.take(at)].exports, path.skip(at + 2), 0)
        } else {
            None
        },
    }
}

impl ReplContext {
    /// A session in which nothing is defined.
    pub fn new() -> (r: ReplContext)
        ensures
            r@ == empty_session(),
    {
        let none: Vec<(String, CompiledAbilityInfo)> = Vec::new();
        assert(named_abilities(none@) =~= seq![]);
        ReplContext::with_prelude(none)
    }

    /// A session in which abilities are always there.
    pub fn with_prelude(prelude: Vec<(String, CompiledAbilityInfo)>) -> (r: ReplContext)
        ensures
            r@ == (ReplView { abilities: named_abilities(prelude@), ..empty_session() }),
    {
        let r = ReplContext {
            function_hashes: OrdMap::new(),
            item_kinds: OrdMap::new(),
            modules: OrdMap::new(),
            prelude_abilities: prelude,
        };
        assert(r@.hashes =~= Map::empty());
        assert(r@.modules =~= Map::empty());
        r
    }

    /// Bind a name.
    fn register(&mut self, name: &str, hash: Digest, kind: ReplItemKind)
        ensures
            final(self)@ == with_item(old(self)@, name@, hash@, kind),
    {
        let ghost was = self@;
        self.function_hashes.insert(owned(name), hash);
        self.item_kinds.insert(owned(name), kind);
        assert(self@.hashes =~= was.hashes.insert(name@, hash@));
    }

    /// Define a function.
    pub fn register_function(&mut self, name: &str, hash: Digest)
        ensures
            final(self)@ == with_item(old(self)@, name@, hash@, ReplItemKind::Function),
    {
        self.register(name, hash, ReplItemKind::Function);
    }

    /// Define a constant.
    pub fn register_constant(&mut self, name: &str, hash: Digest)
        ensures
            final(self)@ == with_item(old(self)@, name@, hash@, ReplItemKind::Constant),
    {
        self.register(name, hash, ReplItemKind::Constant);
    }

    /// Make a function of the `core` library callable by its full name.
    pub fn register_core_function(&mut self, qualified_name: &str, hash: Digest)
        ensures
            final(self)@ == with_item(
                old(self)@,
                qualified_name@,
                hash@,
                ReplItemKind::Function,
            ),
    {
        self.register(qualified_name, hash, ReplItemKind::Function);
    }

    /// Whether a name is a constant.
    pub fn is_constant(&self, name: &str) -> (r: bool)
        ensures
            r == (self@.kinds.contains_key(name@) && self@.kinds[name@]
                == ReplItemKind::Constant),
    {
        match self.item_kinds.get_text(name) {
            Some(k) => *k == ReplItemKind::Constant,
            None => false,
        }
    }

    /// Make a module one that can be looked into.
    pub fn register_module(&mut self, path: &str, module: ModuleValue)
        ensures
            final(self)@ == with_module(old(self)@, path@, module@),
    {
        let ghost was = self@;
        let ghost view = module@;
        self.modules.insert(owned(path), module);
        assert(self@.modules =~= was.modules.insert(path@, view));
    }

    /// The module of a path.
    pub fn get_module(&self, path: &str) -> (r: Option<&ModuleValue>)
        ensures
            match r {
                Some(m) => self@.modules.contains_key(path@) && m@ == self@.modules[path@],
                None => !self@.modules.contains_key(path@),
            },
    {
        self.modules.get_text(path)
    }

    /// Whether a path is that of a module.
    pub fn is_module(&self, path: &str) -> (r: bool)
        ensures
            r == self@.modules.contains_key(path@),
    {
        self.modules.get_text(path).is_some()
    }

    /// The kind of the member of a module that a path names.
    pub fn get_module_member(&self, path: &str) -> (r: Option<ModuleExportKind>)
        ensures
            r == member_kind(self@, path@),
    {
        let chars = chars_of(path);
        let ghost s = chars@;
        let mut n: usize = chars.len();
        while n > 0 && !(n < chars.len() && chars[n - 1] == ':' && chars[n] == ':')
            invariant
                n <= chars@.len(),
                s == chars@,
                last_separator(s, s.len() as int) == last_separator(s, n as int),
            decreases n,
        {
            n = n - 1;
        }
        if n == 0 {
            return None;
        }
        let at: usize = n - 1;
        let module_text = text_between(chars.as_slice(), 0, at);
        assert(module_text@ =~= s.take(at as int));
        let member = text_between(chars.as_slice(), at + 2, chars.len());
        assert(member@ =~= s.skip(at + 2));
        let module = match self.modules.get_text(module_text.as_str()) {
            Some(m) => m,
            None => {
                return None;
            },
        };
        let ghost es = module@.exports;
        let mut i: usize = 0;
        assert(member_kind(self@, path@) == export_kind(es, member@, 0));
        while i < module.exports.len()
            invariant
                i <= module.exports@.len(),
                es == module@.exports,
                member_kind(self@, path@) == export_kind(es, member@, 0),
                export_kind(es, member@, 0) == export_kind(es, member@, i as int),
            decreases module.exports@.len() - i,
        {
            if text_same(module.exports[i].name.as_str(), member.as_str()) {
                return Some(module.exports[i].kind);
            }
            i = i + 1;
        }
        None
    }
}

// ── the standard abilities ──────────────────────────────────────────────────

/// A module that exports functions of the given names.
pub open spec fn functions_module(path: Seq<char>, names: Seq<Seq<char>>) -> ModuleValueView {
    ModuleValueView {
        path,
        exports: Seq::new(
            names.len(),
            |i: int|
                ExportView {
                    name: names[i],
                    kind: ModuleExportKind::Function,
                    signature: None,
                },
        ),
    }
}

/// A session with one more module, which exports functions of the given names.
pub open spec fn with_functions_module(
    v: ReplView,
    path: Seq<char>,
    names: Seq<Seq<char>>,
) -> ReplView {
    with_module(v, path, functions_module(path, names))
}

/// A session in which the standard abilities can be looked into.
pub open spec fn with_ability_modules(v: ReplView) -> ReplView {
    let a = with_functions_module(v, "Stdio"@, seq!["out!"@, "err!"@, "read!"@]);
    let b = with_functions_module(a, "Time"@, seq!["now!"@, "wait!"@]);
    let c = with_functions_module(
        b,
        "Random"@,
        seq!["random!"@, "random_range!"@, "seed!"@],
    );
    let d = with_functions_module(c, "Log"@, seq!["info!"@, "debug!"@, "warn!"@, "error!"@]);
    let e = with_functions_module(d, "Exception"@, seq!["throw!"@]);
    let f = with_functions_module(
        e,
        "FileSystem"@,
        seq![
            "read!"@,
            "write!"@,
            "read_binary!"@,
            "write_binary!"@,
            "exists!"@,
            "list!"@,
            "remove!"@,
            "create_dir!"@,
        ],
    );
    with_functions_module(f, "Network"@, seq!["get!"@, "post!"@])
}

impl ReplContext {
    /// Make a module that exports functions one that can be looked into.
    fn register_functions_module(&mut self, path: &str, names: &[&str])
        ensures
            final(self)@ == with_functions_module(old(self)@, path@, str_texts(names@)),
    {
        let ghost want = functions_module(path@, str_texts(names@)).exports;
        let mut exports: Vec<ModuleExport> = Vec::new();
        let mut i: usize = 0;
        while i < names.len()
            invariant
                i <= names@.len(),
                want == functions_module(path@, str_texts(names@)).exports,
                exports@.len() == i,
                forall|k: int| 0 <= k < i ==> (#[trigger] exports@[k])@ == want[k],
            decreases names@.len() - i,
        {
            exports.push(ModuleExport::new(names[i], ModuleExportKind::Function));
            i = i + 1;
        }
        assert(export_views(exports@) =~= want);
        self.register_module(path, ModuleValue::new(path, exports));
    }

    /// Make the standard abilities ones that can be looked into.
    pub fn register_ability_modules(&mut self)
        ensures
            final(self)@ == with_ability_modules(old(self)@),
    {
        let stdio = ["out!", "err!", "read!"];
        assert(str_texts(stdio@) =~= seq!["out!"@, "err!"@, "read!"@]);
        self.register_functions_module("Stdio", &stdio);
        let time = ["now!", "wait!"];
        assert(str_texts(time@) =~= seq!["now!"@, "wait!"@]);
        self.register_functions_module("Time", &time);
        let random = ["random!", "random_range!", "seed!"];
        assert(str_texts(random@) =~= seq!["random!"@, "random_range!"@, "seed!"@]);
        self.register_functions_module("Random", &random);
        let log = ["info!", "debug!", "warn!", "error!"];
        assert(str_texts(log@) =~= seq!["info!"@, "debug!"@, "warn!"@, "error!"@]);
        self.register_functions_module("Log", &log);
        let exception = ["throw!"];
        assert(str_texts(exception@) =~= seq!["throw!"@]);
        self.register_functions_module("Exception", &exception);
        let files = [
            "read!",
            "write!",
            "read_binary!",
            "write_binary!",
            "exists!",
            "list!",
            "remove!",
            "create_dir!",
        ];
        assert(str_texts(files@) =~= seq![
            "read!"@,
            "write!"@,
            "read_binary!"@,
            "write_binary!"@,
            "exists!"@,
            "list!"@,
            "remove!"@,
            "create_dir!"@,
        ]);
        self.register_functions_module("FileSystem", &files);
        let network = ["get!", "post!"];
        assert(str_texts(network@) =~= seq!["get!"@, "post!"@]);
        self.register_functions_module("Network", &network);
    }
}

// ── the core library ────────────────────────────────────────────────────────

/// Text split at every `::`, the parts from a position on.
pub open spec fn split_separators(s: Seq<char>, from: int, i: int) -> Seq<Seq<char>>
    decreases s.len() - i,
{
    if i < 0 || i + 1 >= s.len() {
        seq![s.subrange(from, s.len() as int)]
    } else if s[i] == ':' && s[i + 1] == ':' {
        seq![s.subrange(from, i)] + split_separators(s, i + 2, i + 2)
    } else {
        split_separators(s, from, i + 1)
    }
}

/// Text split at every `::`.
fn split_at_separators(text: &str) -> (r: Vec<String>)
    ensures
        texts(r@) == split_separators(text@, 0, 0),
{
    let chars = chars_of(text);
    let ghost s = chars@;
    let mut out: Vec<String> = Vec::new();
    let mut from: usize = 0;
    let mut i: usize = 0;
    assert(texts(out@) =~= seq![]);
    assert(seq![] + split_separators(s, 0, 0) =~= split_separators(s, 0, 0));
    while i < chars.len() && chars.len() - i > 1
        invariant
            from <= i <= chars@.len(),
            s == chars@,
            texts(out@) + split_separators(s, from as int, i as int) == split_separators(s, 0, 0),
        decreases chars@.len() - i,
    {
        if chars[i] == ':' && chars[i + 1] == ':' {
            let part = text_between(chars.as_slice(), from, i);
            let ghost was = texts(out@);
            out.push(part);
            assert(texts(out@) =~= was.push(part@));
            assert(texts(out@) + split_separators(s, i + 2, i + 2) =~= was
                + split_separators(s, from as int, i as int));
            i = i + 2;
            from = i;
        } else {
            i = i + 1;
        }
    }
    let part = text_between(chars.as_slice(), from, chars.len());
    let ghost was = texts(out@);
    out.push(part);
    assert(texts(out@) =~= was + seq![part@]);
    out
}

/// Whether an export of a name is among some.
pub open spec fn exports_name(es: Seq<ExportView>, name: Seq<char>) -> bool {
    exists|i: int| 0 <= i < es.len() && (#[trigger] es[i]).name == name
}

/// Exports with the built-in functions added that they lack.
pub open spec fn with_intrinsics(es: Seq<ExportView>, list: Seq<(Seq<char>, u8)>) -> Seq<ExportView>
    decreases list.len(),
{
    if list.len() == 0 {
        es
    } else {
        let before = with_intrinsics(es, list.drop_last());
        if exports_name(before, list.last().0) {
            before
        } else {
            before.push(
                ExportView {
                    name: list.last().0,
                    kind: ModuleExportKind::Function,
                    signature: Some(arity_signature(list.last().1)),
                },
            )
        }
    }
}

/// Add the built-in functions that exports lack.
fn add_intrinsics(exports: &mut Vec<ModuleExport>, list: &Vec<(&'static str, u8)>)
    ensures
        export_views(final(exports)@) == with_intrinsics(
            export_views(old(exports)@),
            arity_views(list@),
        ),
{
    let ghost start = export_views(exports@);
    let ghost all = arity_views(list@);
    let mut i: usize = 0;
    assert(all.take(0) =~= seq![]);
    while i < list.len()
        invariant
            i <= list@.len(),
            all == arity_views(list@),
            export_views(exports@) == with_intrinsics(start, all.take(i as int)),
        decreases list@.len() - i,
    {
        assert(all.take(i + 1).drop_last() =~= all.take(i as int));
        assert(all.take(i + 1).last() == (list@[i as int].0@, list@[i as int].1));
        let ghost was = export_views(exports@);
        let name = list[i].0;
        let mut found = false;
        let mut k: usize = 0;
        while k < exports.len() && !found
            invariant
                k <= exports@.len(),
                was == export_views(exports@),
                found ==> exports_name(was, name@),
                !found ==> forall|j: int| 0 <= j < k ==> (#[trigger] was[j]).name != name@,
            decreases exports@.len() - k, !found as int,
        {
            if text_same(exports[k].name.as_str(), name) {
                assert(was[k as int].name == name@);
                found = true;
            } else {
                k = k + 1;
            }
        }
        if !found {
            let signature = generate_intrinsic_signature(list[i].1);
            let e = ModuleExport::with_signature(name, ModuleExportKind::Function, signature);
            let ghost view = e@;
            exports.push(e);
            assert(export_views(exports@) =~= was.push(view));
        }
        i = i + 1;
    }
    assert(all.take(all.len() as int) =~= all);
}

/// A module of the `core` library as a value: what its source exports, and the
/// built-in functions that live in it.
pub open spec fn core_value(library: Seq<CoreModuleView>, name: Seq<char>) -> ModuleValueView {
    let declared = match last_named(library, name) {
        Some(m) => line_exports(text_lines(m.source)),
        None => seq![],
    };
    ModuleValueView {
        path: "core::"@ + name,
        exports: with_intrinsics(
            declared,
            listed(seq!["core"@] + split_separators(name, 0, 0), INTRINSIC_COUNT as int),
        ),
    }
}

/// The root of the `core` library as a value.
pub open spec fn core_root(names: Seq<Seq<char>>) -> ModuleValueView {
    ModuleValueView {
        path: "core"@,
        exports: Seq::new(
            names.len(),
            |i: int|
                ExportView {
                    name: names[i],
                    kind: ModuleExportKind::Module,
                    signature: None,
                },
        ),
    }
}

/// A session in which modules of the `core` library can be looked into.
pub open spec fn with_core_values(
    v: ReplView,
    library: Seq<CoreModuleView>,
    names: Seq<Seq<char>>,
) -> ReplView
    decreases names.len(),
{
    if names.len() == 0 {
        v
    } else {
        with_module(
            with_core_values(v, library, names.drop_last()),
            "core::"@ + names.last(),
            core_value(library, names.last()),
        )
    }
}

/// The names of the modules of the `core` library below its root.
pub open spec fn core_names(library: Seq<CoreModuleView>) -> Set<Seq<char>> {
    Set::new(|n: Seq<char>| n.len() > 0 && last_named(library, n) is Some)
}

impl ReplContext {
    /// Make a module of the `core` library one that can be looked into.
    fn register_core_module(&mut self, library: &CoreLibrary, name: &str)
        requires
            library.rooted(),
        ensures
            final(self)@ == with_module(
                old(self)@,
                "core::"@ + name@,
                core_value(library@, name@),
            ),
    {
        let path_slice = [name];
        assert(str_texts(path_slice@) =~= seq![name@]);
        assert(crate::module_paths::joined(seq![name@]) == name@);
        let mut exports: Vec<ModuleExport> = match library.get_source(&path_slice) {
            Ok(source) => parse_module_exports(source),
            Err(_) => Vec::new(),
        };
        let ghost declared = export_views(exports@);
        proof {
            if last_named(library@, name@) is None {
                assert(declared =~= seq![]);
            }
        }
        let parts = split_at_separators(name);
        let mut segments: Vec<&str> = Vec::new();
        segments.push("core");
        let mut i: usize = 0;
        while i < parts.len()
            invariant
                i <= parts@.len(),
                segments@.len() == i + 1,
                segments@[0]@ == "core"@,
                forall|k: int| 0 <= k < i ==> (#[trigger] segments@[k + 1])@ == parts@[k]@,
            decreases parts@.len() - i,
        {
            segments.push(parts[i].as_str());
            i = i + 1;
        }
        proof {
            let want = seq!["core"@] + split_separators(name@, 0, 0);
            assert forall|k: int| 0 <= k < want.len() implies str_texts(segments@)[k]
                == want[k] by {
                if k > 0 {
                    assert(segments@[k - 1 + 1]@ == parts@[k - 1]@);
                    assert(texts(parts@)[k - 1] == parts@[k - 1]@);
                }
            }
            assert(str_texts(segments@) =~= want);
        }
        let list = crate::compiler::intrinsics::get_intrinsics_for_module(segments.as_slice());
        add_intrinsics(&mut exports, &list);
        let mut path = owned("core::");
        push_text(&mut path, name);
        self.register_module(path.as_str(), ModuleValue::new(path.as_str(), exports));
    }

    /// Make the modules of the `core` library ones that can be looked into.
    pub fn register_core_modules(&mut self, library: &CoreLibrary)
        requires
            library.rooted(),
        ensures
            exists|names: Seq<Seq<char>>| #[trigger]
                enumerates(names, core_names(library@)) && final(self)@ == with_core_values(
                    with_module(old(self)@, "core"@, core_root(names)),
                    library@,
                    names,
                ),
    {
        let names = library.available_modules();
        let ghost all = texts(names@);
        let ghost want = core_root(all).exports;
        let mut exports: Vec<ModuleExport> = Vec::new();
        let mut i: usize = 0;
        while i < names.len()
            invariant
                i <= names@.len(),
                all == texts(names@),
                want == core_root(all).exports,
                exports@.len() == i,
                forall|k: int| 0 <= k < i ==> (#[trigger] exports@[k])@ == want[k],
            decreases names@.len() - i,
        {
            exports.push(ModuleExport::new(names[i].as_str(), ModuleExportKind::Module));
            i = i + 1;
        }
        assert(export_views(exports@) =~= want);
        self.register_module("core", ModuleValue::new("core", exports));
        let ghost start = self@;
        let mut k: usize = 0;
        assert(all.take(0) =~= seq![]);
        while k < names.len()
            invariant
                k <= names@.len(),
                library.rooted(),
                all == texts(names@),
                self@ == with_core_values(start, library@, all.take(k as int)),
            decreases names@.len() - k,
        {
            assert(all.take(k + 1).drop_last() =~= all.take(k as int));
            assert(all.take(k + 1).last() == names@[k as int]@);
            self.register_core_module(library, names[k].as_str());
            k = k + 1;
        }
        assert(all.take(all.len() as int) =~= all);
        assert(enumerates(all, core_names(library@)));
    }
}

// ── compiling ───────────────────────────────────────────────────────────────

/// Keys of names.
pub open spec fn bare_hashes(m: Map<Seq<char>, Seq<u8>>) -> Map<KeyView, Seq<u8>> {
    Map::new(
        |k: KeyView| k matches KeyView::Bare(s) && m.contains_key(s),
        |k: KeyView| m[k->Bare_0],
    )
}

/// The keys of the names that are constants.
pub open spec fn constant_keys(m: Map<Seq<char>, ReplItemKind>) -> Set<KeyView> {
    Set::new(
        |k: KeyView|
            k matches KeyView::Bare(s) && m.contains_key(s) && m[s] == ReplItemKind::Constant,
    )
}

/// Abilities by their own names, with some added.
pub open spec fn with_prelude_abilities(
    s: Seq<(KeyView, AbilityView)>,
    vs: Seq<(Seq<char>, AbilityView)>,
) -> Seq<(KeyView, AbilityView)>
    decreases vs.len(),
{
    if vs.len() == 0 {
        s
    } else {
        assoc_set(
            with_prelude_abilities(s, vs.drop_last()),
            KeyView::Bare(vs.last().0),
            vs.last().1,
        )
    }
}

/// What the names of a session mean.
pub open spec fn session_tables(v: ReplView) -> TablesView {
    TablesView {
        function_hashes: bare_hashes(v.hashes),
        thunks: constant_keys(v.kinds),
        abilities: with_prelude_abilities(seq![], v.abilities),
        ..empty_tables(None)
    }
}

/// An expression as a function without parameters.
pub open spec fn expression_function(t: TablesView, e: Expr) -> Result<FunctionView, ErrorView> {
    match expr_code(t, e, Gen { scope: empty_scope(), out: no_bodies().out }, false) {
        Err(x) => Err(x),
        Ok((code, g)) => built(code.push(Op::Plain(Opcode::Return)), g.scope.next_local, 0),
    }
}

/// A named function of a session, under its temporary hash.
pub open spec fn session_function(t: TablesView, d: FunctionDef) -> Result<FunctionView, ErrorView> {
    match with_params(empty_scope(), d.params@) {
        Err(x) => Err(x),
        Ok(scope) => match expr_code(t, d.body, Gen { scope, out: no_bodies().out }, false) {
            Err(x) => Err(x),
            Ok((code, g)) => match lowered_code(code.push(Op::Plain(Opcode::Return))) {
                Err(x) => Err(x),
                Ok(l) => Ok(
                    function_of(
                        l,
                        g.scope.next_local,
                        d.params@.len() as u8,
                        temporary_hash(d.name@),
                    ),
                ),
            },
        },
    }
}

/// A compiled definition of a session.
#[derive(Debug)]
pub struct CompiledReplItem {
    /// The name.
    pub name: String,
    /// The function.
    pub function: CompiledFunction,
    /// What it is.
    pub kind: ReplItemKind,
}

/// What a definition of a session becomes.
pub open spec fn compiled_item(v: ReplView, item: Item) -> Result<
    (Seq<char>, FunctionView, ReplItemKind),
    ErrorView,
> {
    match item.kind {
        ItemKind::Function(d) => {
            let t = session_tables(
                ReplView { hashes: v.hashes.insert(d.name@, temporary_hash(d.name@)), ..v },
            );
            match session_function(t, d) {
                Ok(f) => Ok((d.name@, f, ReplItemKind::Function)),
                Err(e) => Err(e),
            }
        },
        ItemKind::Const(d) => match expression_function(session_tables(v), d.value) {
            Ok(f) => Ok((d.name@, f, ReplItemKind::Constant)),
            Err(e) => Err(e),
        },
        _ => Err(
            internal_at(
                "structs, type aliases, enums, abilities, traits, impls, and use statements are not yet supported in the REPL"@,
                item.span,
            ),
        ),
    }
}

/// The table of functions of a session.
fn hash_table(m: &OrdMap<String, Digest>) -> (r: NameTable<Digest>)
    ensures
        key_hashes(r@) == bare_hashes(name_map(m@)),
{
    let entries = m.items();
    let ghost want = bare_hashes(name_map(m@));
    let mut r: NameTable<Digest> = NameTable::new();
    let mut i: usize = 0;
    while i < entries.len()
        invariant
            i <= entries@.len(),
            keys_increase(entries@),
            m@ == entries_map(entries@),
            forall|k: KeyView| #[trigger]
                r@.contains_key(k) <==> exists|j: int|
                    0 <= j < i && KeyView::Bare((#[trigger] entries@[j]).0@) == k,
            forall|j: int|
                0 <= j < i ==> r@[KeyView::Bare((#[trigger] entries@[j]).0@)]
                    == entries@[j].1,
        decreases entries@.len() - i,
    {
        let ghost was = r@;
        let ghost key = KeyView::Bare(entries@[i as int].0@);
        r.insert(NameKey::Bare(owned(entries[i].0.as_str())), entries[i].1);
        proof {
            assert forall|k: KeyView| #[trigger] r@.contains_key(k) <==> exists|j: int|
                0 <= j < i + 1 && KeyView::Bare((#[trigger] entries@[j]).0@) == k by {
                if r@.contains_key(k) {
                    if k == key {
                        assert(KeyView::Bare(entries@[i as int].0@) == k);
                    } else {
                        assert(was.contains_key(k));
                    }
                }
                if exists|j: int|
                    0 <= j < i + 1 && KeyView::Bare((#[trigger] entries@[j]).0@) == k {
                    let j = choose|j: int|
                        0 <= j < i + 1 && KeyView::Bare((#[trigger] entries@[j]).0@) == k;
                    if j < i {
                        assert(was.contains_key(k));
                    }
                }
            }
            assert forall|j: int| 0 <= j < i + 1 implies r@[KeyView::Bare(
                (#[trigger] entries@[j]).0@,
            )] == entries@[j].1 by {
                if j < i {
                    entry_found(entries@, j);
                    entry_found(entries@, i as int);
                    assert(entries@[j].0@ != entries@[i as int].0@) by {
                        if entries@[j].0@ == entries@[i as int].0@ {
                            assert(entries@[j].0.model() == entries@[i as int].0.model());
                        }
                    }
                    assert(was[KeyView::Bare(entries@[j].0@)] == entries@[j].1);
                }
            }
        }
        i = i + 1;
    }
    proof {
        let have = key_hashes(r@);
        assert forall|k: KeyView| have.contains_key(k) <==> want.contains_key(k) by {
            if have.contains_key(k) {
                let j = choose|j: int|
                    0 <= j < entries@.len() && KeyView::Bare((#[trigger] entries@[j]).0@) == k;
                entry_found(entries@, j);
            }
            if want.contains_key(k) {
                let name = k->Bare_0;
                let j = key_position(entries@, name);
                assert(has_key(entries@, name));
                assert(KeyView::Bare(entries@[j].0@) == k);
            }
        }
        assert forall|k: KeyView| have.contains_key(k) implies have[k] == want[k] by {
            let j = choose|j: int|
                0 <= j < entries@.len() && KeyView::Bare((#[trigger] entries@[j]).0@) == k;
            entry_found(entries@, j);
        }
        assert(have =~= want);
    }
    r
}

/// The table of constants of a session.
fn thunk_table(m: &OrdMap<String, ReplItemKind>) -> (r: NameTable<()>)
    ensures
        r@.dom() == constant_keys(m@),
{
    let entries = m.items();
    let mut r: NameTable<()> = NameTable::new();
    let mut i: usize = 0;
    while i < entries.len()
        invariant
            i <= entries@.len(),
            keys_increase(entries@),
            m@ == entries_map(entries@),
            forall|k: KeyView| #[trigger]
                r@.contains_key(k) <==> exists|j: int|
                    0 <= j < i && KeyView::Bare((#[trigger] entries@[j]).0@) == k && entries@[j].1
                        == ReplItemKind::Constant,
        decreases entries@.len() - i,
    {
        let ghost was = r@;
        let ghost key = KeyView::Bare(entries@[i as int].0@);
        let constant = entries[i].1 == ReplItemKind::Constant;
        if constant {
            r.insert(NameKey::Bare(owned(entries[i].0.as_str())), ());
        }
        proof {
            assert forall|k: KeyView| #[trigger] r@.contains_key(k) <==> exists|j: int|
                0 <= j < i + 1 && KeyView::Bare((#[trigger] entries@[j]).0@) == k && entries@[j].1
                    == ReplItemKind::Constant by {
                if r@.contains_key(k) {
                    if was.contains_key(k) {
                        let j = choose|j: int|
                            0 <= j < i && KeyView::Bare((#[trigger] entries@[j]).0@) == k
                                && entries@[j].1 == ReplItemKind::Constant;
                        assert(KeyView::Bare(entries@[j].0@) == k);
                    } else {
                        assert(KeyView::Bare(entries@[i as int].0@) == k);
                    }
                }
                if exists|j: int|
                    0 <= j < i + 1 && KeyView::Bare((#[trigger] entries@[j]).0@) == k
                        && entries@[j].1 == ReplItemKind::Constant {
                    let j = choose|j: int|
                        0 <= j < i + 1 && KeyView::Bare((#[trigger] entries@[j]).0@) == k
                            && entries@[j].1 == ReplItemKind::Constant;
                    if j < i {
                        assert(was.contains_key(k));
                    }
                }
            }
        }
        i = i + 1;
    }
    proof {
        let want = constant_keys(m@);
        assert forall|k: KeyView| r@.dom().contains(k) <==> want.contains(k) by {
            if r@.contains_key(k) {
                let j = choose|j: int|
                    0 <= j < entries@.len() && KeyView::Bare((#[trigger] entries@[j]).0@) == k
                        && entries@[j].1 == ReplItemKind::Constant;
                entry_found(entries@, j);
            }
            if want.contains(k) {
                let name = k->Bare_0;
                let j = key_position(entries@, name);
                assert(has_key(entries@, name));
                assert(KeyView::Bare(entries@[j].0@) == k);
            }
        }
        assert(r@.dom() =~= want);
    }
    r
}

impl ReplContext {
    /// What the names of the session mean.
    fn tables(&self) -> (r: ModuleTables)
        ensures
            r@ == session_tables(self@),
    {
        let mut t = ModuleTables::new(None);
        t.function_hashes = hash_table(&self.function_hashes);
        t.thunks = thunk_table(&self.item_kinds);
        let ghost all = named_abilities(self.prelude_abilities@);
        let ghost rest = t@;
        let mut i: usize = 0;
        assert(all.take(0) =~= seq![]);
        while i < self.prelude_abilities.len()
            invariant
                i <= self.prelude_abilities@.len(),
                all == named_abilities(self.prelude_abilities@),
                t@ == (TablesView {
                    abilities: with_prelude_abilities(seq![], all.take(i as int)),
                    ..rest
                }),
            decreases self.prelude_abilities@.len() - i,
        {
            assert(all.take(i + 1).drop_last() =~= all.take(i as int));
            assert(all.take(i + 1).last() == all[i as int]);
            let entry = &self.prelude_abilities[i];
            t.abilities.insert(NameKey::Bare(owned(entry.0.as_str())), entry.1.copy());
            i = i + 1;
        }
        assert(all.take(all.len() as int) =~= all);
        t
    }
}

/// An expression as a function without parameters.
fn compile_as_function(t: &ModuleTables, expr: &Expr) -> (r: Result<CompiledFunction, CompileError>)
    ensures
        match expression_function(t@, *expr) {
            Ok(f) => r matches Ok(c) && c@ == f,
            Err(e) => r matches Err(x) && x@ == e,
        },
{
    let mut fc = FunctionCompiler::new();
    let mut ctx = ModuleContext::new();
    let ghost g = reached(fc, ctx);
    compile_expr(t, &mut fc, expr, &mut ctx)?;
    fc.emit_plain(Opcode::Return);
    proof {
        let code = expr_code(t@, *expr, g, false)->Ok_0.0;
        assert(fc.ops() =~= code.push(Op::Plain(Opcode::Return)));
    }
    build(&fc.code, fc.next_local, 0)
}

/// Compile an expression in a session in which nothing is defined.
pub fn compile_expression(expr: &Expr) -> (r: Result<CompiledFunction, CompileError>)
    ensures
        match expression_function(session_tables(empty_session()), *expr) {
            Ok(f) => r matches Ok(c) && c@ == f,
            Err(e) => r matches Err(x) && x@ == e,
        },
{
    let context = ReplContext::new();
    compile_expression_with_context(expr, &context)
}

/// Compile an expression in a session.
pub fn compile_expression_with_context(expr: &Expr, context: &ReplContext) -> (r: Result<
    CompiledFunction,
    CompileError,
>)
    ensures
        match expression_function(session_tables(context@), *expr) {
            Ok(f) => r matches Ok(c) && c@ == f,
            Err(e) => r matches Err(x) && x@ == e,
        },
{
    let t = context.tables();
    compile_as_function(&t, expr)
}

/// Compile a named function of a session.
fn compile_function_for_repl(t: &ModuleTables, func: &FunctionDef) -> (r: Result<
    CompiledFunction,
    CompileError,
>)
    ensures
        match session_function(t@, *func) {
            Ok(f) => r matches Ok(c) && c@ == f,
            Err(e) => r matches Err(x) && x@ == e,
        },
{
    let mut fc = FunctionCompiler::new();
    let mut ctx = ModuleContext::new();
    alloc_params(&mut fc, &func.params)?;
    let ghost g = reached(fc, ctx);
    compile_expr(t, &mut fc, &func.body, &mut ctx)?;
    fc.emit_plain(Opcode::Return);
    proof {
        let code = expr_code(t@, func.body, g, false)->Ok_0.0;
        assert(fc.ops() =~= code.push(Op::Plain(Opcode::Return)));
    }
    let l = lower(&fc.code)?;
    Ok(
        CompiledFunction {
            hash: compute_temporary_hash(func.name.as_str()),
            bytecode: l.bytecode,
            constants: l.constants,
            local_count: fc.next_local,
            param_count: func.params.len() as u8,
            dependencies: l.dependencies,
            debug_info: None,
        },
    )
}

/// Compile a definition in a session. It can call itself.
pub fn compile_repl_item(item: &Item, context: &ReplContext) -> (r: Result<
    CompiledReplItem,
    CompileError,
>)
    ensures
        match compiled_item(context@, *item) {
            Ok((name, f, kind)) => r matches Ok(c) && c.name@ == name && c.function@ == f
                && c.kind == kind,
            Err(e) => r matches Err(x) && x@ == e,
        },
{
    match &item.kind {
        ItemKind::Function(func) => {
            let mut t = context.tables();
            let hash = compute_temporary_hash(func.name.as_str());
            let ghost was = key_hashes(t.function_hashes@);
            t.function_hashes.insert(NameKey::Bare(owned(func.name.as_str())), hash);
            proof {
                let v = context@;
                let more = v.hashes.insert(func.name@, hash@);
                assert(key_hashes(t.function_hashes@) =~= was.insert(
                    KeyView::Bare(func.name@),
                    hash@,
                ));
                assert(key_hashes(t.function_hashes@) =~= bare_hashes(more));
                assert(t@ == session_tables(ReplView { hashes: more, ..v }));
            }
            let function = compile_function_for_repl(&t, func)?;
            Ok(
                CompiledReplItem {
                    name: owned(func.name.as_str()),
                    function,
                    kind: ReplItemKind::Function,
                },
            )
        },
        ItemKind::Const(def) => {
            let t = context.tables();
            let function = compile_as_function(&t, &def.value)?;
            Ok(
                CompiledReplItem {
                    name: owned(def.name.as_str()),
                    function,
                    kind: ReplItemKind::Constant,
                },
            )
        },
        _ => Err(
            CompileError::internal(
                "structs, type aliases, enums, abilities, traits, impls, and use statements are not yet supported in the REPL",
                item.span.as_pair(),
            ),
        ),
    }
}

} // verus!
