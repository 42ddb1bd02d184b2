//! The kept form of a module depends on nothing but the module: its parts are in
//! an order of their own.

use vstd::prelude::*;

use crate::ast::Module;
use crate::bytecode::FunctionView;
use crate::compiler::assemble::{
    bound, check_views, hashed, named, text_map, AbilityMethodCheck, FormView,
};
use crate::compiler::capture::{
    captures, lists_objects, relinks, same_functions, same_lambdas, text_pairs,
};
use crate::compiler::entry::{symbolic_form, OptionsView};
use crate::compiler::error::ErrorView;
use crate::compiler::module_output::{
    kept, migration_views, name_map, object_map, parent_map, CompiledModule, MigrationRecord,
};
use crate::compiler::moving::{moved_code, moved_lambda_code};
use crate::compiler::prelink::{
    bare, bound_texts, by_hash, lists_by_hash, migration_parts, moved_function, moved_prelink,
    PrelinkFn, PrelinkLambda, PrelinkModule,
};
use crate::compiler::relinking::{
    moved_form, moved_functions, moved_options, moves_imports, recompiling_moves_the_form,
};
use crate::compiler::replay::{prelink_nodes, replaying_gives_the_same_module};
use crate::digest::Digest;
use crate::object::{object_hash, ObjectView, StoredObject};
use crate::ordmap::{
    entries_map, entry_found, has_key, increasing_keys_are_unique, keys_increase, Key,
};
use crate::sorting::{sorted, sorted_in_step, Ranked};
use crate::wire::{contents, Wire};

verus! {

broadcast use vstd::string::group_string_axioms;

// ── lists in order ──────────────────────────────────────────────────────────

proof fn lemma_same_names(a: Seq<(String, Digest)>, b: Seq<(String, Digest)>)
    requires
        keys_increase(a),
        keys_increase(b),
        bound(named(a)) == bound(named(b)),
    ensures
        named(a) == named(b),
{
    crate::compiler::capture::lemma_bound_entries(a);
    crate::compiler::capture::lemma_bound_entries(b);
    let x = name_map(entries_map(a));
    let y = name_map(entries_map(b));
    assert forall|m: Seq<char>| #[trigger] has_key(a, m) == has_key(b, m) by {
        assert(x.contains_key(m) == entries_map(a).contains_key(m));
        assert(y.contains_key(m) == entries_map(b).contains_key(m));
    }
    increasing_keys_are_unique(a, b);
    assert forall|i: int| 0 <= i < a.len() implies named(a)[i] == named(b)[i] by {
        entry_found(a, i);
        entry_found(b, i);
        assert(a[i].0.model() == b[i].0.model());
        let m = a[i].0@;
        assert(x[m] == a[i].1@);
        assert(y[m] == b[i].1@);
    }
    assert(named(a) =~= named(b));
}

proof fn lemma_same_texts(a: Seq<(String, String)>, b: Seq<(String, String)>)
    requires
        keys_increase(a),
        keys_increase(b),
        bound_texts(text_pairs(a)) == bound_texts(text_pairs(b)),
    ensures
        text_pairs(a) == text_pairs(b),
{
    crate::compiler::capture::lemma_bound_text_entries(a);
    crate::compiler::capture::lemma_bound_text_entries(b);
    let x = text_map(entries_map(a));
    let y = text_map(entries_map(b));
    assert forall|m: Seq<char>| #[trigger] has_key(a, m) == has_key(b, m) by {
        assert(x.contains_key(m) == entries_map(a).contains_key(m));
        assert(y.contains_key(m) == entries_map(b).contains_key(m));
    }
    increasing_keys_are_unique(a, b);
    assert forall|i: int| 0 <= i < a.len() implies text_pairs(a)[i] == text_pairs(b)[i] by {
        entry_found(a, i);
        entry_found(b, i);
        assert(a[i].0.model() == b[i].0.model());
        let m = a[i].0@;
        assert(x[m] == a[i].1@);
        assert(y[m] == b[i].1@);
    }
    assert(text_pairs(a) =~= text_pairs(b));
}

/// Whether no two of some objects share a hash.
pub open spec fn hashes_apart(objects: Set<ObjectView>) -> bool {
    forall|x: ObjectView, y: ObjectView| #[trigger]
        objects.contains(x) && #[trigger] objects.contains(y) && object_hash(x) == object_hash(y)
            ==> x == y
}

/// What is kept of objects by their hashes.
proof fn lemma_by_hash(es: Seq<(Seq<u8>, ObjectView)>, h: Seq<u8>)
    ensures
        kept(Map::<Seq<u8>, ObjectView>::empty(), es).contains_key(h) <==> exists|i: int|
            0 <= i < es.len() && (#[trigger] es[i]).0 == h,
        kept(Map::<Seq<u8>, ObjectView>::empty(), es).contains_key(h) ==> es.contains(
            (h, kept(Map::<Seq<u8>, ObjectView>::empty(), es)[h]),
        ),
    decreases es.len(),
{
    if es.len() > 0 {
        let rest = es.drop_last();
        let none = Map::<Seq<u8>, ObjectView>::empty();
        lemma_by_hash(rest, h);
        if exists|i: int| 0 <= i < es.len() && (#[trigger] es[i]).0 == h {
            let i = choose|i: int| 0 <= i < es.len() && (#[trigger] es[i]).0 == h;
            if i < rest.len() {
                assert(rest[i].0 == h);
            }
        }
        if kept(none, rest).contains_key(h) {
            let e = (h, kept(none, rest)[h]);
            let i = rest.index_of(e);
            assert(es[i] == e);
        } else if es.last().0 == h {
            assert(es[es.len() - 1] == es.last());
        }
    }
}

proof fn lemma_same_by_hash(a: Seq<StoredObject>, b: Seq<StoredObject>)
    requires
        contents(a).to_set() == contents(b).to_set(),
        hashes_apart(contents(a).to_set()),
    ensures
        by_hash(a) == by_hash(b),
{
    let x = by_hash(a);
    let y = by_hash(b);
    let ea = hashed(contents(a));
    let eb = hashed(contents(b));
    let all = contents(a).to_set();
    assert forall|h: Seq<u8>| x.contains_key(h) == y.contains_key(h) by {
        lemma_by_hash(ea, h);
        lemma_by_hash(eb, h);
        if x.contains_key(h) {
            let i = choose|i: int| 0 <= i < ea.len() && (#[trigger] ea[i]).0 == h;
            assert(contents(a).contains(contents(a)[i]));
            assert(all.contains(contents(a)[i]));
            assert(contents(b).to_set().contains(contents(a)[i]));
            let j = contents(b).index_of(contents(a)[i]);
            assert(eb[j].0 == h);
        }
        if y.contains_key(h) {
            let i = choose|i: int| 0 <= i < eb.len() && (#[trigger] eb[i]).0 == h;
            assert(contents(b).contains(contents(b)[i]));
            assert(contents(b).to_set().contains(contents(b)[i]));
            assert(all.contains(contents(b)[i]));
            let j = contents(a).index_of(contents(b)[i]);
            assert(ea[j].0 == h);
        }
    }
    assert forall|h: Seq<u8>| x.contains_key(h) implies x[h] == y[h] by {
        lemma_by_hash(ea, h);
        lemma_by_hash(eb, h);
        assert(y.contains_key(h));
        let i = ea.index_of((h, x[h]));
        let j = eb.index_of((h, y[h]));
        assert(contents(a)[i] == x[h]);
        assert(contents(b)[j] == y[h]);
        assert(all.contains(x[h]));
        assert(contents(b).to_set().contains(y[h]));
        assert(all.contains(y[h]));
    }
    assert(x =~= y);
}

proof fn lemma_same_lists(a: Seq<ObjectView>, b: Seq<ObjectView>, m: Map<Seq<u8>, ObjectView>)
    requires
        lists_by_hash(a, m),
        lists_by_hash(b, m),
    ensures
        a == b,
{
    let x = choose|entries: Seq<(Digest, StoredObject)>|
        {
            &&& #[trigger] keys_increase(entries)
            &&& object_map(entries_map(entries)) == m
            &&& a == Seq::new(entries.len(), |i: int| entries[i].1.content())
        };
    let y = choose|entries: Seq<(Digest, StoredObject)>|
        {
            &&& #[trigger] keys_increase(entries)
            &&& object_map(entries_map(entries)) == m
            &&& b == Seq::new(entries.len(), |i: int| entries[i].1.content())
        };
    assert forall|h: Seq<u8>| #[trigger] has_key(x, h) == has_key(y, h) by {
        assert(m.contains_key(h) == entries_map(x).contains_key(h));
        assert(m.contains_key(h) == entries_map(y).contains_key(h));
    }
    increasing_keys_are_unique(x, y);
    assert forall|i: int| 0 <= i < a.len() implies a[i] == b[i] by {
        entry_found(x, i);
        entry_found(y, i);
        assert(x[i].0.model() == y[i].0.model());
        let h = x[i].0@;
        assert(m[h] == x[i].1.content());
        assert(m[h] == y[i].1.content());
    }
    assert(a =~= b);
}

proof fn lemma_same_objects(
    a: Seq<StoredObject>,
    b: Seq<StoredObject>,
    objects: Set<ObjectView>,
)
    requires
        lists_objects(a, objects),
        lists_objects(b, objects),
        hashes_apart(objects),
    ensures
        contents(a) == contents(b),
{
    let x = choose|all: Seq<StoredObject>|
        contents(all).to_set() == objects && #[trigger] lists_by_hash(contents(a), by_hash(all));
    let y = choose|all: Seq<StoredObject>|
        contents(all).to_set() == objects && #[trigger] lists_by_hash(contents(b), by_hash(all));
    lemma_same_by_hash(x, y);
    lemma_same_lists(contents(a), contents(b), by_hash(x));
}

// ── forms ───────────────────────────────────────────────────────────────────

/// The kept forms of two symbolic forms that differ by moved hashes differ by
/// the same.
proof fn lemma_captured(
    r: Map<Seq<u8>, Seq<u8>>,
    a: FormView,
    b: FormView,
    p: PrelinkModule,
    q: PrelinkModule,
)
    requires
        captures(p, a),
        captures(q, b),
        moved_form(r, a, b),
        hashes_apart(a.const_objects),
        hashes_apart(a.native_objects),
    ensures
        q@ == moved_prelink(r, p@),
{
    let v = moved_prelink(r, p@);
    let fa = choose|fs: Seq<PrelinkFn>| #[trigger]
        sorted(fs) == p.functions@ && same_functions(fs, a.functions);
    let fb = choose|fs: Seq<PrelinkFn>| #[trigger]
        sorted(fs) == q.functions@ && same_functions(fs, b.functions);
    let fn_rel = |x: PrelinkFn, y: PrelinkFn|
        x.name@ == y.name@ && x.is_main == y.is_main && y.func@ == moved_function(r, x.func@);
    assert forall|i: int| 0 <= i < fa.len() implies fn_rel(#[trigger] fa[i], fb[i]) && fa[i].rank()
        == fb[i].rank() by {
        assert((fa[i].name@, fa[i].func@, fa[i].is_main) == a.functions[i]);
        assert((fb[i].name@, fb[i].func@, fb[i].is_main) == b.functions[i]);
        assert(b.functions[i] == moved_functions(r, a.functions)[i]);
    }
    sorted_in_step(fa, fb, fn_rel);
    assert(q@.functions =~= v.functions) by {
        assert forall|i: int| 0 <= i < q@.functions.len() implies q@.functions[i]
            == v.functions[i] by {
            let x = p.functions@[i];
            let y = q.functions@[i];
            assert(fn_rel(sorted(fa)[i], sorted(fb)[i]));
            assert(bare(y.func@, y.func@.hash) == moved_function(r, bare(x.func@, x.func@.hash)));
        }
    }
    let la = choose|ls: Seq<PrelinkLambda>| #[trigger]
        sorted(ls) == p.lambdas@ && same_lambdas(ls, a.lambdas);
    let lb = choose|ls: Seq<PrelinkLambda>| #[trigger]
        sorted(ls) == q.lambdas@ && same_lambdas(ls, b.lambdas);
    let lambda_rel = |x: PrelinkLambda, y: PrelinkLambda|
        x.temp_hash@ == y.temp_hash@ && x.parent@ == y.parent@ && moved_code(r, x.func@, y.func@);
    assert forall|i: int| 0 <= i < la.len() implies lambda_rel(#[trigger] la[i], lb[i])
        && la[i].rank() == lb[i].rank() by {
        assert((la[i].temp_hash@, la[i].parent@, la[i].func@) == a.lambdas[i]);
        assert((lb[i].temp_hash@, lb[i].parent@, lb[i].func@) == b.lambdas[i]);
    }
    sorted_in_step(la, lb, lambda_rel);
    assert(q@.lambdas =~= v.lambdas) by {
        assert forall|i: int| 0 <= i < q@.lambdas.len() implies q@.lambdas[i] == v.lambdas[i] by {
            let x = p.lambdas@[i];
            let y = q.lambdas@[i];
            assert(lambda_rel(sorted(la)[i], sorted(lb)[i]));
            assert(bare(y.func@, y.temp_hash@) == moved_function(r, bare(x.func@, x.temp_hash@)));
        }
    }
    let ca = choose|cs: Seq<AbilityMethodCheck>| #[trigger]
        sorted(cs) == p.ability_checks@ && check_views(cs) == a.checks;
    let cb = choose|cs: Seq<AbilityMethodCheck>| #[trigger]
        sorted(cs) == q.ability_checks@ && check_views(cs) == b.checks;
    let check_rel = |x: AbilityMethodCheck, y: AbilityMethodCheck| x@ == y@;
    assert(ca.len() == a.checks.len() && cb.len() == a.checks.len());
    assert forall|i: int| 0 <= i < ca.len() implies check_rel(#[trigger] ca[i], cb[i])
        && ca[i].rank() == cb[i].rank() by {
        assert(check_views(ca)[i] == check_views(cb)[i]);
    }
    sorted_in_step(ca, cb, check_rel);
    assert(check_views(q.ability_checks@) =~= check_views(p.ability_checks@)) by {
        assert forall|i: int| 0 <= i < p.ability_checks@.len() implies check_views(
            q.ability_checks@,
        )[i] == check_views(p.ability_checks@)[i] by {
            assert(check_rel(sorted(ca)[i], sorted(cb)[i]));
        }
    }
    let ma = choose|ms: Seq<MigrationRecord>| #[trigger]
        sorted(ms) == p.migrations@ && migration_views(ms) == a.migrations;
    let mb = choose|ms: Seq<MigrationRecord>| #[trigger]
        sorted(ms) == q.migrations@ && migration_views(ms) == b.migrations;
    let migration_rel = |x: MigrationRecord, y: MigrationRecord| x@ == y@;
    assert(ma.len() == a.migrations.len() && mb.len() == a.migrations.len());
    assert forall|i: int| 0 <= i < ma.len() implies migration_rel(#[trigger] ma[i], mb[i])
        && ma[i].rank() == mb[i].rank() by {
        assert(migration_views(ma)[i] == migration_views(mb)[i]);
    }
    sorted_in_step(ma, mb, migration_rel);
    assert(migration_parts(q.migrations@) =~= migration_parts(p.migrations@)) by {
        assert forall|i: int| 0 <= i < p.migrations@.len() implies migration_parts(
            q.migrations@,
        )[i] == migration_parts(p.migrations@)[i] by {
            assert(migration_rel(sorted(ma)[i], sorted(mb)[i]));
        }
    }
    lemma_same_objects(p.const_objects@, q.const_objects@, a.const_objects);
    lemma_same_objects(p.native_objects@, q.native_objects@, a.native_objects);
    lemma_same_names(p.const_names@, q.const_names@);
    lemma_same_names(p.native_names@, q.native_names@);
    assert(p.ability_group_names.content() =~= text_pairs(p.ability_group_names@));
    assert(q.ability_group_names.content() =~= text_pairs(q.ability_group_names@));
    lemma_same_texts(p.ability_group_names@, q.ability_group_names@);
    assert(named(p.const_names@) =~= p.const_names.content());
    assert(named(q.const_names@) =~= q.const_names.content());
    assert(named(p.native_names@) =~= p.native_names.content());
    assert(named(q.native_names@) =~= q.native_names.content());
}

/// The kept form of a symbolic form is always the same, in whatever order the
/// parts came, where no two constants and no two native functions share a hash.
pub proof fn capturing_is_canonical(form: FormView, p: PrelinkModule, q: PrelinkModule)
    requires
        captures(p, form),
        captures(q, form),
        hashes_apart(form.const_objects),
        hashes_apart(form.native_objects),
    ensures
        p@ == q@,
{
    let none = Map::<Seq<u8>, Seq<u8>>::empty();
    assert forall|f: FunctionView| #[trigger] moved_function(none, f) == f by {
        assert(moved_function(none, f).constants =~= f.constants);
        assert(moved_function(none, f).dependencies =~= f.dependencies);
    }
    assert(moved_functions(none, form.functions) =~= form.functions);
    assert(moved_lambda_code(none, form.lambdas, form.lambdas));
    lemma_captured(none, form, form, p, q);
    let v = moved_prelink(none, p@);
    assert(v.functions =~= p@.functions);
    assert(v.lambdas =~= p@.lambdas);
}

/// Moving the hashes of imported functions in the kept form of a module gives
/// the form that compiling the module against the new hashes gives.
pub proof fn relinking_gives_the_recompiled_form(
    r: Map<Seq<u8>, Seq<u8>>,
    m: Module,
    o: OptionsView,
    a: FormView,
    p: PrelinkModule,
    q: PrelinkModule,
)
    requires
        moves_imports(r, m, o),
        symbolic_form(m, o) == Ok::<FormView, ErrorView>(a),
        captures(p, a),
        hashes_apart(a.const_objects),
        hashes_apart(a.native_objects),
        symbolic_form(m, moved_options(r, o)) matches Ok(b) && captures(q, b),
    ensures
        q@ == moved_prelink(r, p@),
{
    recompiling_moves_the_form(r, m, o);
    let b = symbolic_form(m, moved_options(r, o))->Ok_0;
    lemma_captured(r, a, b, p, q);
}

/// A module that is linked again from its kept form, with the hashes of imported
/// functions moved, is the module that compiling it against the new hashes
/// gives: the same objects, names, constants, parents of lambdas, entry
/// point and migrations. `d` is the kept form after the hashes were moved.
pub proof fn relinking_gives_the_recompiled_module(
    r: Map<Seq<u8>, Seq<u8>>,
    m: Module,
    o: OptionsView,
    a: FormView,
    p: PrelinkModule,
    d: PrelinkModule,
    q: PrelinkModule,
    relinked: CompiledModule,
    recompiled: CompiledModule,
)
    requires
        moves_imports(r, m, o),
        symbolic_form(m, o) == Ok::<FormView, ErrorView>(a),
        captures(p, a),
        hashes_apart(a.const_objects),
        hashes_apart(a.native_objects),
        d@ == moved_prelink(r, p@),
        relinks(d, relinked),
        symbolic_form(m, moved_options(r, o)) matches Ok(b) && captures(q, b),
        relinks(q, recompiled),
        prelink_nodes(d).len() <= usize::MAX,
    ensures
        object_map(relinked.objects@).dom() == object_map(recompiled.objects@).dom(),
        name_map(relinked.function_names@) == name_map(recompiled.function_names@),
        name_map(relinked.const_names@) == name_map(recompiled.const_names@),
        parent_map(relinked.lambda_parents@) == parent_map(recompiled.lambda_parents@),
        relinked.entry_point is Some == recompiled.entry_point is Some,
        relinked.entry_point is Some ==> relinked.entry_point->0@ == recompiled.entry_point->0@,
        migration_parts(relinked.migrations@) == migration_parts(recompiled.migrations@),
{
    relinking_gives_the_recompiled_form(r, m, o, a, p, q);
    replaying_gives_the_same_module(d, q, relinked, recompiled);
}

} // verus!
