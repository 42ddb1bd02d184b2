//! What the names of an interactive session mean to the code that is entered in it.

use vstd::prelude::*;

use crate::ast::{name_key, QualifiedName};
use crate::compiler::context::function_hash;
use crate::compiler::exports::{arity_signature, ExportView, ModuleExportKind, ModuleValueView};
use crate::compiler::language::name_value;
use crate::compiler::machine::{Host, Val};
use crate::compiler::repl::{
    core_value, export_kind, exports_name, last_separator, member_kind, session_tables,
    with_core_values, with_intrinsics, with_item, with_module, ReplItemKind, ReplView,
};
use crate::core_library::CoreModuleView;
use crate::fqn::KeyView;

verus! {

// ── items ───────────────────────────────────────────────────────────────────

/// A name that was registered in a session is that of the registered code: a
/// constant is evaluated where it is referred to, a function is a value.
pub proof fn registered_names_mean_their_code(
    m: Host,
    v: ReplView,
    name: Seq<char>,
    hash: Seq<u8>,
    kind: ReplItemKind,
    n: QualifiedName,
)
    requires
        name_key(n) == KeyView::Bare(name),
    ensures
        ({
            let t = session_tables(with_item(v, name, hash, kind));
            &&& function_hash(t, KeyView::Bare(name)) == Some(hash)
            &&& name_value(m, t, n) == (if kind == ReplItemKind::Constant {
                Some((m.call)(hash, seq![]))
            } else {
                Some(Val::Function(hash))
            })
        }),
{
}

/// Registering a name changes the meaning of no other.
pub proof fn registering_leaves_other_names(
    m: Host,
    v: ReplView,
    name: Seq<char>,
    hash: Seq<u8>,
    kind: ReplItemKind,
    n: QualifiedName,
)
    requires
        name_key(n) != KeyView::Bare(name),
    ensures
        ({
            let t = session_tables(v);
            let u = session_tables(with_item(v, name, hash, kind));
            &&& function_hash(u, name_key(n)) == function_hash(t, name_key(n))
            &&& name_value(m, u, n) == name_value(m, t, n)
            &&& u.abilities == t.abilities
        }),
{
    let t = session_tables(v);
    let u = session_tables(with_item(v, name, hash, kind));
    let k = name_key(n);
    assert(u.function_hashes.contains_key(k) == t.function_hashes.contains_key(k));
    assert(u.thunks.contains(k) == t.thunks.contains(k));
}

// ── modules ─────────────────────────────────────────────────────────────────

proof fn lemma_separator(s: Seq<char>, at: int, n: int)
    requires
        0 <= at,
        at + 2 <= s.len(),
        s[at] == ':' && s[at + 1] == ':',
        forall|i: int| at + 2 <= i < s.len() ==> s[i] != ':',
        at < n <= s.len(),
    ensures
        last_separator(s, n) == Some(at),
    decreases n,
{
    if n == at + 1 {
    } else {
        if n < s.len() {
            assert(n >= at + 2);
            assert(s[n] != ':');
        }
        lemma_separator(s, at, n - 1);
    }
}

/// What stands behind the last `::` of a path names a member, and what stands before
/// it a module: a member of a module of the session is found by the two, joined.
pub proof fn members_are_found_by_their_path(
    v: ReplView,
    path: Seq<char>,
    m: ModuleValueView,
    name: Seq<char>,
)
    requires
        forall|i: int| 0 <= i < name.len() ==> name[i] != ':',
    ensures
        member_kind(with_module(v, path, m), path + seq![':', ':'] + name) == export_kind(
            m.exports,
            name,
            0,
        ),
{
    let s = path + seq![':', ':'] + name;
    let at = path.len() as int;
    lemma_separator(s, at, s.len() as int);
    assert(s.take(at) =~= path);
    assert(s.skip(at + 2) =~= name);
}

/// A member of a module is found just where the module exports its name. What comes
/// first under a name is found.
pub proof fn exported_names_are_found(es: Seq<ExportView>, name: Seq<char>, from: int)
    requires
        0 <= from <= es.len(),
    ensures
        match export_kind(es, name, from) {
            Some(k) => exists|i: int|
                from <= i < es.len() && (#[trigger] es[i]).name == name && es[i].kind == k
                    && forall|j: int| from <= j < i ==> (#[trigger] es[j]).name != name,
            None => forall|i: int| from <= i < es.len() ==> (#[trigger] es[i]).name != name,
        },
    decreases es.len() - from,
{
    if from < es.len() && es[from].name != name {
        exported_names_are_found(es, name, from + 1);
        if export_kind(es, name, from + 1) is Some {
            let k = export_kind(es, name, from + 1)->0;
            let i = choose|i: int|
                from + 1 <= i < es.len() && (#[trigger] es[i]).name == name && es[i].kind == k
                    && forall|j: int| from + 1 <= j < i ==> (#[trigger] es[j]).name != name;
            assert(forall|j: int| from <= j < i ==> (#[trigger] es[j]).name != name);
        }
    } else if from < es.len() {
        assert(es[from].name == name);
    }
}

/// A module of the `core` library exports what its source declares, as it declares
/// it, and every built-in function that lives in it. What is added is a function, and
/// shows how many arguments it takes.
pub proof fn built_in_functions_are_exported(es: Seq<ExportView>, list: Seq<(Seq<char>, u8)>)
    ensures
        es.is_prefix_of(with_intrinsics(es, list)),
        forall|i: int|
            0 <= i < list.len() ==> exports_name(with_intrinsics(es, list), (#[trigger] list[i]).0),
        forall|i: int|
            es.len() <= i < with_intrinsics(es, list).len() ==> {
                let e = #[trigger] with_intrinsics(es, list)[i];
                &&& e.kind == ModuleExportKind::Function
                &&& !exports_name(es, e.name)
                &&& exists|k: int|
                    0 <= k < list.len() && e.name == (#[trigger] list[k]).0 && e.signature == Some(
                        arity_signature(list[k].1),
                    )
            },
    decreases list.len(),
{
    let all = with_intrinsics(es, list);
    if list.len() > 0 {
        let rest = list.drop_last();
        let was = with_intrinsics(es, rest);
        built_in_functions_are_exported(es, rest);
        let n = list.last().0;
        assert(was.is_prefix_of(all));
        assert(es =~= all.subrange(0, es.len() as int));
        assert forall|i: int| 0 <= i < list.len() implies exports_name(
            all,
            (#[trigger] list[i]).0,
        ) by {
            let x = list[i].0;
            if i < rest.len() {
                assert(rest[i] == list[i]);
                let k = choose|k: int| 0 <= k < was.len() && (#[trigger] was[k]).name == x;
                assert(all[k].name == x);
            } else if exports_name(was, n) {
                let k = choose|k: int| 0 <= k < was.len() && (#[trigger] was[k]).name == n;
                assert(all[k].name == n);
            } else {
                assert(all[was.len() as int].name == n);
            }
        }
        assert forall|i: int| es.len() <= i < all.len() implies {
            let e = #[trigger] all[i];
            &&& e.kind == ModuleExportKind::Function
            &&& !exports_name(es, e.name)
            &&& exists|k: int|
                0 <= k < list.len() && e.name == (#[trigger] list[k]).0 && e.signature == Some(
                    arity_signature(list[k].1),
                )
        } by {
            if i < was.len() {
                assert(all[i] == was[i]);
                let k = choose|k: int|
                    0 <= k < rest.len() && was[i].name == (#[trigger] rest[k]).0
                        && was[i].signature == Some(arity_signature(rest[k].1));
                assert(list[k] == rest[k]);
            } else {
                assert(list[list.len() - 1] == list.last());
                if exports_name(es, n) {
                    let k = choose|k: int| 0 <= k < es.len() && (#[trigger] es[k]).name == n;
                    assert(was[k].name == n);
                }
            }
        }
    } else {
        assert(es.is_prefix_of(es));
    }
}

/// Every module of the `core` library that is registered can be looked into under
/// its path, and what was there before under other paths stays.
pub proof fn core_modules_are_found_under_their_paths(
    v: ReplView,
    library: Seq<CoreModuleView>,
    names: Seq<Seq<char>>,
    path: Seq<char>,
)
    ensures
        ({
            let w = with_core_values(v, library, names);
            &&& forall|i: int|
                0 <= i < names.len() ==> w.modules.contains_key("core::"@ + #[trigger] names[i])
                    && w.modules["core::"@ + names[i]] == core_value(library, names[i])
            &&& (forall|i: int| 0 <= i < names.len() ==> "core::"@ + #[trigger] names[i] != path)
                ==> (w.modules.contains_key(path) == v.modules.contains_key(path) && (
            v.modules.contains_key(path) ==> w.modules[path] == v.modules[path]))
            &&& w.hashes == v.hashes && w.kinds == v.kinds
        }),
    decreases names.len(),
{
    if names.len() > 0 {
        let rest = names.drop_last();
        core_modules_are_found_under_their_paths(v, library, rest, path);
        let w = with_core_values(v, library, names);
        let was = with_core_values(v, library, rest);
        assert forall|i: int| 0 <= i < names.len() implies w.modules.contains_key(
            "core::"@ + #[trigger] names[i],
        ) && w.modules["core::"@ + names[i]] == core_value(library, names[i]) by {
            let a = "core::"@ + names[i];
            let b = "core::"@ + names.last();
            if a == b {
                assert(names[i] =~= a.skip("core::"@.len() as int));
                assert(names.last() =~= b.skip("core::"@.len() as int));
            } else {
                assert(rest[i] == names[i]);
            }
        }
        if forall|i: int| 0 <= i < names.len() ==> "core::"@ + #[trigger] names[i] != path {
            assert forall|i: int| 0 <= i < rest.len() implies "core::"@ + #[trigger] rest[i]
                != path by {
                assert(names[i] == rest[i]);
            }
            assert(names[names.len() - 1] == names.last());
        }
    }
}

} // verus!
