//! The objects and names of a compiled module are fit for a pack.

use vstd::prelude::*;

use crate::ast::{ConstDef, ExternFnDef, Module};
use crate::bytecode::{ConstantView, FunctionView};
use crate::compiler::assemble::{
    assembled, bound, form_nodes, hashed, input_nodes, named, nodes_of_form, one_hash_each,
    AssembleInputs, FormView,
};
use crate::compiler::context::bound_to;
use crate::compiler::entry::{
    ability_bodies, compiles, function_bodies, impl_bodies, linking, symbolic_form, tables_of,
    OptionsView,
};
use crate::compiler::error::ErrorView;
use crate::compiler::graph::{on_cycle, reaches_itself, same_component};
use crate::compiler::hash::{
    call_graph, can_store, can_store_all, component, const_hashes, const_objects, final_names,
    finalizes, gives_object, group_object, has_objects, hash_ok, hashes_are_unique, hashes_ok,
    known, lemma_component_below, lemma_member_order, lemma_order_shared, link_map, local_at,
    node_hash, objects_ok, order_of, plain_object, NodeView,
};
use crate::compiler::items::{
    ability_methods, all_abilities, all_consts, all_externs, all_functions, all_impls,
    impl_methods,
};
use crate::compiler::module_output::{
    is_const_hash, is_large_group, kept, members_redirected, name_map, names_split, object_map,
    objects_coherent, pack_keeps_names, pack_objects, routed, unpacked, CompiledModule,
};
use crate::compiler::moving::{moved_tables, moves_well, only_values, used};
use crate::compiler::prelink::moved;
use crate::compiler::relinking::{lemma_ability_bodies, lemma_function_bodies, lemma_impl_bodies};
use crate::compiler::tables::{
    const_names, const_values, native_object, own_key, with_functions, with_natives,
};
use crate::digest::Digest;
use crate::fqn::{KeyView, ModuleView};
use crate::module_env::BindingView;
use crate::object::{
    derived_hash, loaded_constants, loaded_function, loaded_members, loaded_ref, loaded_refs,
    materialized, object_hash, resolved, sibling_hashes, storable,
    stored_constant, stored_function, MemberView, ObjectView, RefView, StoredObject,
};
use crate::ordmap::{entries_map, keys_increase};
use crate::sorting::sorted;
use crate::wire::contents;

verus! {

broadcast use {vstd::string::group_string_axioms, vstd::array::group_array_axioms};

// ── what is stored loads ────────────────────────────────────────────────────

/// Whether references within a group are to one of its members.
spec fn refs_within(subst: Map<Seq<u8>, RefView>, count: nat) -> bool {
    forall|h: Seq<u8>| #[trigger]
        subst.contains_key(h) ==> (subst[h] matches RefView::Internal(i) ==> i < count)
}

proof fn lemma_refs_load(rs: Seq<RefView>, siblings: Seq<Seq<u8>>)
    requires
        forall|k: int| 0 <= k < rs.len() ==> loaded_ref(#[trigger] rs[k], siblings) is Ok,
    ensures
        loaded_refs(rs, siblings) is Ok,
    decreases rs.len(),
{
    if rs.len() > 0 {
        assert forall|k: int| 0 <= k < rs.drop_last().len() implies loaded_ref(
            #[trigger] rs.drop_last()[k],
            siblings,
        ) is Ok by {
            assert(rs[k] == rs.drop_last()[k]);
        }
        lemma_refs_load(rs.drop_last(), siblings);
        assert(rs[rs.len() - 1] == rs.last());
    }
}

proof fn lemma_constants_load(
    cs: Seq<ConstantView>,
    subst: Map<Seq<u8>, RefView>,
    siblings: Seq<Seq<u8>>,
)
    requires
        forall|i: int| 0 <= i < cs.len() ==> (#[trigger] cs[i]) != ConstantView::Runtime,
        refs_within(subst, siblings.len()),
    ensures
        loaded_constants(Seq::new(cs.len(), |i: int| stored_constant(cs[i], subst)->0), siblings)
            is Ok,
    decreases cs.len(),
{
    let s = Seq::new(cs.len(), |i: int| stored_constant(cs[i], subst)->0);
    if cs.len() > 0 {
        let rest = cs.drop_last();
        assert forall|i: int| 0 <= i < rest.len() implies (#[trigger] rest[i])
            != ConstantView::Runtime by {
            assert(rest[i] == cs[i]);
        }
        lemma_constants_load(rest, subst, siblings);
        assert(s.drop_last() =~= Seq::new(rest.len(), |i: int| stored_constant(rest[i], subst)->0));
        assert(cs[cs.len() - 1] == cs.last());
        match cs.last() {
            ConstantView::Function(h) => {
                assert(subst.contains_key(h) || resolved(subst, h) == RefView::External(h));
            },
            ConstantView::Method(m) => {
                if let Some(h) = m.impl_fn {
                    assert(subst.contains_key(h) || resolved(subst, h) == RefView::External(h));
                }
            },
            _ => {},
        }
    }
}

/// What is stored of a function loads in its group.
proof fn lemma_stored_loads(
    f: FunctionView,
    subst: Map<Seq<u8>, RefView>,
    hash: Seq<u8>,
    siblings: Seq<Seq<u8>>,
)
    requires
        storable(f),
        refs_within(subst, siblings.len()),
    ensures
        loaded_function(stored_function(f, subst), hash, siblings) is Ok,
{
    let s = stored_function(f, subst);
    lemma_constants_load(f.constants, subst, siblings);
    assert forall|k: int| 0 <= k < s.dependencies.len() implies loaded_ref(
        #[trigger] s.dependencies[k],
        siblings,
    ) is Ok by {
        let h = f.dependencies[k];
        assert(subst.contains_key(h) || resolved(subst, h) == RefView::External(h));
    }
    lemma_refs_load(s.dependencies, siblings);
}

proof fn lemma_members_load(ms: Seq<MemberView>, siblings: Seq<Seq<u8>>, k: int)
    requires
        0 <= k <= ms.len(),
        ms.len() == siblings.len(),
        forall|i: int|
            0 <= i < ms.len() ==> loaded_function(
                (#[trigger] ms[i]).function,
                siblings[i],
                siblings,
            ) is Ok,
    ensures
        loaded_members(ms, siblings, k) matches Ok(fs) && fs.len() == k && forall|i: int|
            0 <= i < k ==> (#[trigger] fs[i]).0 == siblings[i],
    decreases k,
{
    if k > 0 {
        lemma_members_load(ms, siblings, k - 1);
        assert(loaded_function(ms[k - 1].function, siblings[k - 1], siblings) is Ok);
    }
}

// ── groups ──────────────────────────────────────────────────────────────────

/// The order of a node's group lists the nodes of its component, the node among
/// them, each once.
proof fn lemma_order(nodes: Seq<NodeView>, i: int)
    requires
        0 <= i < nodes.len(),
    ensures
        order_of(nodes, i).no_duplicates(),
        order_of(nodes, i).contains(i),
        forall|k: int|
            0 <= k < order_of(nodes, i).len() ==> 0 <= #[trigger] order_of(nodes, i)[k]
                < nodes.len() && same_component(call_graph(nodes), i, order_of(nodes, i)[k]),
{
    let g = call_graph(nodes);
    let c = component(g, i);
    lemma_component_below(g, i, g.len() as int);
    lemma_member_order(nodes, c);
    reaches_itself(g, i);
    assert(c.contains(i));
    let order = order_of(nodes, i);
    assert forall|k: int| 0 <= k < order.len() implies 0 <= #[trigger] order[k] < nodes.len()
        && same_component(g, i, order[k]) by {
        assert(order.contains(order[k]));
        assert(c.contains(order[k]));
    }
}

proof fn lemma_order_fits(nodes: Seq<NodeView>, i: int)
    requires
        0 <= i < nodes.len(),
    ensures
        order_of(nodes, i).len() <= nodes.len(),
{
    lemma_order(nodes, i);
    let order = order_of(nodes, i);
    let all = Seq::new(nodes.len(), |k: int| k);
    assert(order.to_set().subset_of(all.to_set())) by {
        assert forall|x: int| order.to_set().contains(x) implies all.to_set().contains(x) by {
            let k = order.index_of(x);
            assert(0 <= order[k] < nodes.len());
            assert(all[x] == x);
        }
    }
    order.unique_seq_to_set();
    assert(all.no_duplicates());
    all.unique_seq_to_set();
    vstd::set_lib::lemma_len_subset(order.to_set(), all.to_set());
}

/// The functions of a group's object lie under the hashes of the nodes.
proof fn lemma_group_loads(nodes: Seq<NodeView>, h: Seq<Seq<u8>>, i: int)
    requires
        0 <= i < nodes.len() <= u32::MAX,
        can_store_all(nodes),
        on_cycle(call_graph(nodes), i),
    ensures
        ({
            let order = order_of(nodes, i);
            let group = group_object(nodes, known(h), order);
            materialized(group) matches Ok(fs) && fs.len() == order.len() && forall|k: int|
                0 <= k < fs.len() ==> (#[trigger] fs[k]).0 == node_hash(nodes, known(h), order[k])
                    && on_cycle(call_graph(nodes), order[k]) && order_of(nodes, order[k]) == order
        }),
{
    let g = call_graph(nodes);
    let order = order_of(nodes, i);
    let group = group_object(nodes, known(h), order);
    let ms = group->Group_0;
    let siblings = sibling_hashes(object_hash(group), ms.len());
    let subst = link_map(nodes, known(h), order, -1);
    lemma_order(nodes, i);
    lemma_order_fits(nodes, i);
    assert(refs_within(subst, siblings.len())) by {
        assert forall|x: Seq<u8>| #[trigger] subst.contains_key(x) implies (
        subst[x] matches RefView::Internal(n) ==> n < siblings.len()) by {
            let j = local_at(nodes, x)->0;
            if order.contains(j) {
                let p = order.index_of(j);
                assert(0 <= p < order.len());
            }
        }
    }
    assert forall|k: int| 0 <= k < ms.len() implies loaded_function(
        (#[trigger] ms[k]).function,
        siblings[k],
        siblings,
    ) is Ok by {
        assert(0 <= order[k] < nodes.len());
        assert(can_store(nodes, order[k]));
        lemma_stored_loads(nodes[order[k]].func, subst, siblings[k], siblings);
    }
    lemma_members_load(ms, siblings, ms.len() as int);
    let fs = materialized(group)->Ok_0;
    assert forall|k: int| 0 <= k < fs.len() implies (#[trigger] fs[k]).0 == node_hash(
        nodes,
        known(h),
        order[k],
    ) && on_cycle(g, order[k]) && order_of(nodes, order[k]) == order by {
        assert(same_component(g, i, order[k]));
        lemma_order_shared(nodes, i, order[k]);
        assert(order.contains(order[k]));
        let p = order.index_of(order[k]);
        assert(order[p] == order[k]);
        assert(p == k);
        assert(fs[k].0 == siblings[k]);
    }
}

proof fn lemma_plain_loads(nodes: Seq<NodeView>, h: Seq<Seq<u8>>, i: int)
    requires
        0 <= i < nodes.len(),
        can_store_all(nodes),
    ensures
        materialized(plain_object(nodes, known(h), i)) is Ok,
{
    let o = plain_object(nodes, known(h), i);
    let subst = link_map(nodes, known(h), seq![], i);
    assert(can_store(nodes, i));
    assert(refs_within(subst, 0)) by {
        assert forall|x: Seq<u8>| #[trigger] subst.contains_key(x) implies subst[x]
            is External by {}
    }
    lemma_stored_loads(nodes[i].func, subst, object_hash(o), seq![]);
}

// ── what is kept ────────────────────────────────────────────────────────────

/// What is kept stays; what is added comes from the entries.
proof fn lemma_kept_entry<A, B>(m: Map<A, B>, es: Seq<(A, B)>, k: A)
    ensures
        m.contains_key(k) ==> kept(m, es).contains_key(k) && kept(m, es)[k] == m[k],
        !m.contains_key(k) && kept(m, es).contains_key(k) ==> exists|i: int|
            0 <= i < es.len() && #[trigger] es[i] == (k, kept(m, es)[k]),
        forall|i: int| 0 <= i < es.len() ==> kept(m, es).contains_key((#[trigger] es[i]).0),
    decreases es.len(),
{
    if es.len() > 0 {
        let rest = es.drop_last();
        let before = kept(m, rest);
        let last = es[es.len() - 1];
        lemma_kept_entry(m, rest, k);
        assert forall|i: int| 0 <= i < es.len() implies kept(m, es).contains_key(
            (#[trigger] es[i]).0,
        ) by {
            if i < rest.len() {
                assert(rest[i] == es[i]);
            }
        }
        if !m.contains_key(k) && kept(m, es).contains_key(k) {
            if before.contains_key(k) {
                let i = choose|i: int| 0 <= i < rest.len() && #[trigger] rest[i] == (k, before[k]);
                assert(es[i] == (k, kept(m, es)[k]));
            } else {
                assert(last == (k, kept(m, es)[k]));
            }
        }
    }
}

// ── what a form holds ───────────────────────────────────────────────────────

proof fn lemma_const_objects(vs: Seq<(KeyView, ConstantView)>, k: KeyView)
    ensures
        only_values(const_objects(vs)),
        const_hashes(vs).contains_key(k) ==> const_objects(vs).contains_key(const_hashes(vs)[k])
            && object_hash(const_objects(vs)[const_hashes(vs)[k]]) == const_hashes(vs)[k],
    decreases vs.len(),
{
    if vs.len() > 0 {
        lemma_const_objects(vs.drop_last(), k);
    }
}

proof fn lemma_const_names(
    id: Option<ModuleView>,
    ds: Seq<ConstDef>,
    vs: Seq<(KeyView, ConstantView)>,
    n: Seq<char>,
)
    ensures
        ({
            let names = const_names(id, ds, const_hashes(vs));
            names.contains_key(n) ==> exists|o: ObjectView| #[trigger]
                const_objects(vs).values().contains(o) && o is Value && object_hash(o) == names[n]
        }),
    decreases ds.len(),
{
    if ds.len() > 0 {
        lemma_const_names(id, ds.drop_last(), vs, n);
        let hashes = const_hashes(vs);
        let key = own_key(id, ds.last().name@);
        if n == ds.last().name@ && hashes.contains_key(key) {
            lemma_const_objects(vs, key);
            let o = const_objects(vs)[hashes[key]];
            assert(const_objects(vs).values().contains(o));
        }
    }
}

proof fn lemma_natives(
    m: Map<KeyView, Seq<u8>>,
    id: Option<ModuleView>,
    natives: Map<Seq<char>, BindingView>,
    ds: Seq<ExternFnDef>,
)
    ensures
        with_natives(m, id, natives, ds) matches Ok(n) ==> (forall|o: ObjectView| #[trigger]
            n.objects.contains(o) ==> o is Native) && (forall|name: Seq<char>| #[trigger]
            n.names.contains_key(name) ==> exists|o: ObjectView| #[trigger]
                n.objects.contains(o) && object_hash(o) == n.names[name]),
    decreases ds.len(),
{
    if ds.len() > 0 {
        lemma_natives(m, id, natives, ds.drop_last());
        if let Ok(n) = with_natives(m, id, natives, ds) {
            let b = with_natives(m, id, natives, ds.drop_last())->Ok_0;
            assert forall|name: Seq<char>| #[trigger] n.names.contains_key(name) implies exists|
                o: ObjectView,
            | #[trigger] n.objects.contains(o) && object_hash(o) == n.names[name] by {
                let last = native_object(
                    bound_to(natives, ds.last().name@)->0,
                    ds.last().params@.len() as u8,
                );
                if name == ds.last().name@ {
                    assert(n.objects.contains(last));
                } else {
                    let o = choose|o: ObjectView| #[trigger]
                        b.objects.contains(o) && object_hash(o) == b.names[name];
                    assert(n.objects.contains(o));
                }
            }
        }
    }
}

/// Whether a form holds what a module needs besides its functions: the objects of
/// constants and of native functions, and names of these.
spec fn form_in_order(a: FormView) -> bool {
    &&& forall|o: ObjectView| #[trigger] a.const_objects.contains(o) ==> o is Value
    &&& forall|o: ObjectView| #[trigger] a.native_objects.contains(o) ==> o is Native
    &&& forall|n: Seq<char>| #[trigger]
        a.const_names.contains_key(n) ==> exists|o: ObjectView| #[trigger]
            a.const_objects.contains(o) && object_hash(o) == a.const_names[n]
    &&& forall|n: Seq<char>| #[trigger]
        a.native_names.contains_key(n) ==> exists|o: ObjectView| #[trigger]
            a.native_objects.contains(o) && object_hash(o) == a.native_names[n]
}

proof fn lemma_form(m: Module, o: OptionsView, a: FormView)
    requires
        symbolic_form(m, o) == Ok::<FormView, ErrorView>(a),
    ensures
        form_in_order(a),
{
    let items = m.items@;
    let id = o.env.module_id;
    let n = linking(m, o)->Ok_0;
    let t = tables_of(m, o.env, n.hashes)->Ok_0;
    let values = const_values(id, all_consts(items));
    let r = Map::<Seq<u8>, Seq<u8>>::empty();
    assert forall|x: Seq<u8>, y: Seq<u8>| #[trigger]
        used(t, x) && #[trigger] used(t, y) && moved(r, x) == moved(r, y) implies x == y by {}
    assert(moves_well(r, t));
    assert(moved_tables(r, t).function_hashes =~= t.function_hashes);
    let fs = all_functions(items);
    let ims = impl_methods(all_impls(items));
    let ams = ability_methods(all_abilities(items));
    lemma_function_bodies(r, t, fs, o.origin);
    let x = function_bodies(t, fs, o.origin)->Ok_0;
    lemma_impl_bodies(r, t, ims, o.origin, x, x);
    let y = impl_bodies(t, ims, o.origin, x)->Ok_0;
    lemma_ability_bodies(r, t, ams, o.origin, y, y);
    let b = ability_bodies(t, ams, o.origin, y)->Ok_0;
    assert(only_values(b.out.const_objects));
    let imported = with_functions(o.imported, id, fs);
    lemma_natives(imported, id, o.env.extern_natives, all_externs(items));
    let w = with_natives(imported, id, o.env.extern_natives, all_externs(items))->Ok_0;
    assert(a.native_objects == w.objects && a.native_names == w.names);
    assert forall|v: ObjectView| #[trigger] a.const_objects.contains(v) implies v is Value by {
        lemma_const_objects(values, KeyView::Bare(seq![]));
        if const_objects(values).values().contains(v) {
            let k = choose|k: Seq<u8>| #[trigger]
                const_objects(values).contains_key(k) && const_objects(values)[k] == v;
        } else {
            let k = choose|k: Seq<u8>| #[trigger]
                b.out.const_objects.contains_key(k) && b.out.const_objects[k] == v;
        }
    }
    assert forall|name: Seq<char>| #[trigger] a.native_names.contains_key(name) implies exists|
        v: ObjectView,
    | #[trigger] a.native_objects.contains(v) && object_hash(v) == a.native_names[name] by {
        let v = choose|v: ObjectView| #[trigger]
            w.objects.contains(v) && object_hash(v) == w.names[name];
        assert(a.native_objects.contains(v));
    }
    assert forall|name: Seq<char>| #[trigger] a.const_names.contains_key(name) implies exists|
        v: ObjectView,
    | #[trigger] a.const_objects.contains(v) && object_hash(v) == a.const_names[name] by {
        lemma_const_names(id, all_consts(items), values, name);
        let v = choose|v: ObjectView| #[trigger]
            const_objects(values).values().contains(v) && v is Value && object_hash(v)
                == a.const_names[name];
        assert(a.const_objects.contains(v));
    }
}

// ── a compiled module ───────────────────────────────────────────────────────

/// The object that a node is stored in.
pub open spec fn node_object(nodes: Seq<NodeView>, h: Seq<Seq<u8>>, i: int) -> ObjectView {
    if on_cycle(call_graph(nodes), i) {
        group_object(nodes, known(h), order_of(nodes, i))
    } else {
        plain_object(nodes, known(h), i)
    }
}

/// Whether an object is one that a module is made of. `h` are the final hashes of
/// its functions.
pub open spec fn made_of(a: FormView, h: Seq<Seq<u8>>, o: ObjectView) -> bool {
    ||| a.const_objects.contains(o)
    ||| a.native_objects.contains(o)
    ||| exists|i: int|
        0 <= i < form_nodes(a).len() && o == #[trigger] node_object(form_nodes(a), h, i)
}

/// Whether the objects that a module is made of have different hashes, and none has
/// the hash of a member of a group.
pub open spec fn objects_told_apart(a: FormView, h: Seq<Seq<u8>>) -> bool {
    &&& forall|o: ObjectView, p: ObjectView|
        #![trigger made_of(a, h, o), made_of(a, h, p)]
        made_of(a, h, o) && made_of(a, h, p) && object_hash(o) == object_hash(p) ==> o == p
    &&& forall|o: ObjectView, g: ObjectView, i: u32|
        #![trigger made_of(a, h, o), derived_hash(object_hash(g), i)]
        made_of(a, h, o) && made_of(a, h, g) ==> object_hash(o) != derived_hash(object_hash(g), i)
}

/// What a compiled module holds of the functions, and besides.
spec fn holds(
    a: FormView,
    base: Map<Seq<u8>, ObjectView>,
    objects: Map<Seq<u8>, ObjectView>,
) -> bool {
    &&& forall|k: Seq<u8>| #[trigger]
        base.contains_key(k) ==> objects.contains_key(k) && objects[k] == base[k]
    &&& forall|k: Seq<u8>| #[trigger]
        objects.contains_key(k) ==> base.contains_key(k) || (k == object_hash(objects[k]) && (
        a.const_objects.contains(objects[k]) || a.native_objects.contains(objects[k])))
    &&& forall|o: ObjectView|
        a.const_objects.contains(o) || a.native_objects.contains(o) ==> objects.contains_key(
            #[trigger] object_hash(o),
        )
}

proof fn lemma_folded(
    m: Map<Seq<u8>, ObjectView>,
    s: Seq<ObjectView>,
    k: Seq<u8>,
)
    ensures
        m.contains_key(k) ==> kept(m, hashed(s)).contains_key(k) && kept(m, hashed(s))[k] == m[k],
        !m.contains_key(k) && kept(m, hashed(s)).contains_key(k) ==> s.contains(
            kept(m, hashed(s))[k],
        ) && k == object_hash(kept(m, hashed(s))[k]),
        forall|o: ObjectView| #[trigger] s.contains(o) ==> kept(m, hashed(s)).contains_key(
            object_hash(o),
        ),
{
    let es = hashed(s);
    lemma_kept_entry(m, es, k);
    if !m.contains_key(k) && kept(m, es).contains_key(k) {
        let i = choose|i: int| 0 <= i < es.len() && #[trigger] es[i] == (k, kept(m, es)[k]);
        assert(s[i] == kept(m, es)[k]);
    }
    assert forall|o: ObjectView| #[trigger] s.contains(o) implies kept(m, es).contains_key(
        object_hash(o),
    ) by {
        let i = s.index_of(o);
        assert(es[i].0 == object_hash(o));
    }
}

proof fn lemma_holds(inputs: AssembleInputs, base: CompiledModule, x: CompiledModule)
    requires
        assembled(inputs, base, x),
    ensures
        holds(inputs@, object_map(base.objects@), object_map(x.objects@)),
{
    let b = object_map(base.objects@);
    let objects = object_map(x.objects@);
    let cs = contents(inputs.const_objects@);
    let ns = contents(inputs.native_objects@);
    let mid = kept(b, hashed(cs));
    assert forall|k: Seq<u8>| #[trigger] b.contains_key(k) implies objects.contains_key(k)
        && objects[k] == b[k] by {
        lemma_folded(b, cs, k);
        lemma_folded(mid, ns, k);
    }
    assert forall|k: Seq<u8>| #[trigger] objects.contains_key(k) implies b.contains_key(k) || (k
        == object_hash(objects[k]) && (inputs@.const_objects.contains(objects[k])
        || inputs@.native_objects.contains(objects[k]))) by {
        lemma_folded(b, cs, k);
        lemma_folded(mid, ns, k);
    }
    assert forall|o: ObjectView|
        inputs@.const_objects.contains(o) || inputs@.native_objects.contains(
            o,
        ) implies objects.contains_key(#[trigger] object_hash(o)) by {
        lemma_folded(b, cs, object_hash(o));
        lemma_folded(mid, ns, object_hash(o));
    }
}

/// An object of a function is the one that a node is stored in, under its hash, or a
/// redirect under the hash of a member.
proof fn lemma_base(a: FormView, h: Seq<Seq<u8>>, base: Map<Seq<u8>, ObjectView>, key: Seq<u8>)
    requires
        form_nodes(a).len() <= u32::MAX,
        objects_ok(form_nodes(a), h, base),
        base.contains_key(key),
    ensures
        if base[key] is Redirect {
            exists|g: ObjectView, i: u32|
                made_of(a, h, g) && key == #[trigger] derived_hash(object_hash(g), i)
        } else {
            exists|j: int|
                0 <= j < form_nodes(a).len() && base[key] == #[trigger] node_object(
                    form_nodes(a),
                    h,
                    j,
                ) && key == object_hash(base[key])
        },
{
    let nodes = form_nodes(a);
    let j = choose|j: int|
        0 <= j < nodes.len() && #[trigger] gives_object(nodes, known(h), j, key, base[key]);
    let o = node_object(nodes, h, j);
    assert(made_of(a, h, o));
    lemma_order_fits(nodes, j);
    if base[key] is Redirect {
        let order = order_of(nodes, j);
        assert(order.len() as u32 != 1);
        assert(key == derived_hash(object_hash(o), order.index_of(j) as u32));
    } else {
        assert(base[key] == o);
    }
}

/// Under the hash of an object that a module is made of there is no redirect.
proof fn lemma_no_redirect(
    a: FormView,
    h: Seq<Seq<u8>>,
    base: Map<Seq<u8>, ObjectView>,
    o: ObjectView,
)
    requires
        form_nodes(a).len() <= u32::MAX,
        objects_ok(form_nodes(a), h, base),
        objects_told_apart(a, h),
        made_of(a, h, o),
        base.contains_key(object_hash(o)),
    ensures
        base[object_hash(o)] == o,
{
    let key = object_hash(o);
    lemma_base(a, h, base, key);
    if base[key] is Redirect {
        let (g, i) = choose|g: ObjectView, i: u32|
            made_of(a, h, g) && key == #[trigger] derived_hash(object_hash(g), i);
        assert(object_hash(o) != derived_hash(object_hash(g), i));
    } else {
        assert(made_of(a, h, base[key]));
    }
}

proof fn lemma_coherent(
    a: FormView,
    h: Seq<Seq<u8>>,
    base: Map<Seq<u8>, ObjectView>,
    objects: Map<Seq<u8>, ObjectView>,
)
    requires
        form_nodes(a).len() <= u32::MAX,
        can_store_all(form_nodes(a)),
        form_in_order(a),
        objects_ok(form_nodes(a), h, base),
        holds(a, base, objects),
        objects_told_apart(a, h),
    ensures
        objects_coherent(objects),
{
    let nodes = form_nodes(a);
    let g = call_graph(nodes);
    assert forall|key: Seq<u8>| #[trigger]
        objects.contains_key(key) && !(objects[key] is Redirect) implies {
        &&& key == object_hash(objects[key])
        &&& materialized(objects[key]) is Ok
        &&& is_large_group(objects[key]) ==> members_redirected(
            objects,
            materialized(objects[key])->Ok_0,
        )
    } by {
        if base.contains_key(key) {
            lemma_base(a, h, base, key);
            let j = choose|j: int|
                0 <= j < nodes.len() && base[key] == #[trigger] node_object(nodes, h, j) && key
                    == object_hash(base[key]);
            if on_cycle(g, j) {
                lemma_group_loads(nodes, h, j);
                lemma_order(nodes, j);
                lemma_order_fits(nodes, j);
                let order = order_of(nodes, j);
                let fs = materialized(objects[key])->Ok_0;
                assert(made_of(a, h, objects[key]));
                if order.len() > 1 {
                    assert forall|k: int| 0 <= k < fs.len() implies objects.contains_key(
                        (#[trigger] fs[k]).0,
                    ) && objects[fs[k].0] is Redirect by {
                        let m = fs[k].0;
                        assert(0 <= order[k] < nodes.len());
                        assert(has_objects(nodes, known(h), order[k], base.dom()));
                        assert(base.contains_key(m));
                        assert(m == derived_hash(
                            object_hash(objects[key]),
                            order.index_of(order[k]) as u32,
                        ));
                        lemma_base(a, h, base, m);
                        if !(base[m] is Redirect) {
                            assert(made_of(a, h, base[m]));
                        }
                    }
                }
            } else {
                lemma_plain_loads(nodes, h, j);
            }
        }
    }
}

proof fn lemma_named_hash(nodes: Seq<NodeView>, h: Seq<Seq<u8>>, k: int, n: Seq<char>)
    requires
        0 <= k <= nodes.len(),
    ensures
        final_names(nodes, h, k).contains_key(n) ==> exists|i: int|
            0 <= i < nodes.len() && final_names(nodes, h, k)[n] == #[trigger] h[i],
    decreases k,
{
    if k > 0 {
        lemma_named_hash(nodes, h, k - 1, n);
        if nodes[k - 1].lambda_parent is None && nodes[k - 1].name == Some(n) {
            assert(final_names(nodes, h, k)[n] == h[k - 1]);
        }
    }
}

/// Names of constants are bound to objects of constants.
proof fn lemma_const_hash(
    a: FormView,
    h: Seq<Seq<u8>>,
    base: Map<Seq<u8>, ObjectView>,
    objects: Map<Seq<u8>, ObjectView>,
    n: Seq<char>,
)
    requires
        form_nodes(a).len() <= u32::MAX,
        form_in_order(a),
        objects_ok(form_nodes(a), h, base),
        holds(a, base, objects),
        objects_told_apart(a, h),
        a.const_names.contains_key(n),
    ensures
        is_const_hash(objects, a.const_names[n]),
{
    let o = choose|o: ObjectView| #[trigger]
        a.const_objects.contains(o) && object_hash(o) == a.const_names[n];
    let key = object_hash(o);
    assert(made_of(a, h, o));
    assert(objects.contains_key(key));
    if base.contains_key(key) {
        lemma_no_redirect(a, h, base, o);
    } else {
        assert(made_of(a, h, objects[key]));
    }
}

/// Names of functions are bound to no objects of constants.
proof fn lemma_function_hash(
    a: FormView,
    h: Seq<Seq<u8>>,
    base: Map<Seq<u8>, ObjectView>,
    objects: Map<Seq<u8>, ObjectView>,
    i: int,
)
    requires
        form_nodes(a).len() <= u32::MAX,
        hashes_ok(form_nodes(a), h),
        objects_ok(form_nodes(a), h, base),
        holds(a, base, objects),
        0 <= i < form_nodes(a).len(),
    ensures
        !is_const_hash(objects, h[i]),
{
    let nodes = form_nodes(a);
    assert(hash_ok(nodes, h, i));
    assert(has_objects(nodes, known(h), i, base.dom()));
    lemma_order(nodes, i);
    lemma_order_fits(nodes, i);
    assert(base.contains_key(h[i]));
    lemma_base(a, h, base, h[i]);
}

/// Names of native functions are bound to no objects of constants.
proof fn lemma_native_hash(
    a: FormView,
    h: Seq<Seq<u8>>,
    base: Map<Seq<u8>, ObjectView>,
    objects: Map<Seq<u8>, ObjectView>,
    n: Seq<char>,
)
    requires
        form_nodes(a).len() <= u32::MAX,
        form_in_order(a),
        objects_ok(form_nodes(a), h, base),
        holds(a, base, objects),
        objects_told_apart(a, h),
        a.native_names.contains_key(n),
    ensures
        !is_const_hash(objects, a.native_names[n]),
{
    let o = choose|o: ObjectView| #[trigger]
        a.native_objects.contains(o) && object_hash(o) == a.native_names[n];
    let key = object_hash(o);
    assert(made_of(a, h, o));
    assert(objects.contains_key(key));
    if base.contains_key(key) {
        lemma_no_redirect(a, h, base, o);
    } else {
        assert(made_of(a, h, objects[key]));
    }
}

/// The objects of a compiled module are coherent: each but the redirects stands
/// under its own hash and loads, and the members of groups have redirects. And its
/// names are split: those of constants are bound to constants, those of functions
/// are not. `h` are the final hashes of the functions.
pub proof fn compiled_modules_are_coherent(
    m: Module,
    o: OptionsView,
    a: FormView,
    h: Seq<Seq<u8>>,
    x: CompiledModule,
)
    requires
        symbolic_form(m, o) == Ok::<FormView, ErrorView>(a),
        form_nodes(a).len() <= u32::MAX,
        hashes_ok(form_nodes(a), h),
        objects_told_apart(a, h),
        compiles(m, o, Ok(x)),
    ensures
        objects_coherent(object_map(x.objects@)),
        names_split(x),
{
    let nodes = form_nodes(a);
    let (inputs, k, b) = choose|inputs: AssembleInputs, k: Seq<Seq<u8>>, b: CompiledModule|
        #![trigger finalizes(input_nodes(inputs), k, b), assembled(inputs, b, x)]
        inputs@ == a && one_hash_each(named(inputs.native_names@)) && finalizes(
            input_nodes(inputs),
            k,
            b,
        ) && assembled(inputs, b, x);
    nodes_of_form(inputs);
    hashes_are_unique(nodes, h, k);
    let base = object_map(b.objects@);
    let objects = object_map(x.objects@);
    lemma_form(m, o, a);
    lemma_holds(inputs, b, x);
    lemma_coherent(a, h, base, objects);
    assert forall|n: Seq<char>| #[trigger] x.const_names@.contains_key(n) implies is_const_hash(
        objects,
        x.const_names@[n]@,
    ) by {
        assert(name_map(x.const_names@).contains_key(n));
        assert(name_map(x.const_names@)[n] == x.const_names@[n]@);
        lemma_const_hash(a, h, base, objects, n);
    }
    assert forall|n: Seq<char>| #[trigger] x.function_names@.contains_key(n) implies !is_const_hash(
        objects,
        x.function_names@[n]@,
    ) by {
        let names = name_map(x.function_names@);
        let first = name_map(b.function_names@);
        let es = named(inputs.native_names@);
        assert(names.contains_key(n));
        assert(names[n] == x.function_names@[n]@);
        lemma_kept_entry(first, es, n);
        if first.contains_key(n) {
            lemma_named_hash(nodes, h, nodes.len() as int, n);
            let i = choose|i: int| 0 <= i < nodes.len() && first[n] == #[trigger] h[i];
            lemma_function_hash(a, h, base, objects, i);
        } else {
            let i = choose|i: int| 0 <= i < es.len() && #[trigger] es[i] == (n, names[n]);
            assert(bound(es).contains_key(es[i].0));
            lemma_native_hash(a, h, base, objects, n);
        }
    }
}

/// The module that the pack of a compiled module stands for has the module's names,
/// each bound to the same hash and in the same table.
pub proof fn packing_keeps_the_names_of_a_compiled_module(
    m: Module,
    o: OptionsView,
    a: FormView,
    h: Seq<Seq<u8>>,
    x: CompiledModule,
    functions: Seq<(String, Digest)>,
    consts: Seq<(String, Digest)>,
    objects: Seq<(Digest, StoredObject)>,
    names: Seq<(String, Digest)>,
)
    requires
        symbolic_form(m, o) == Ok::<FormView, ErrorView>(a),
        form_nodes(a).len() <= u32::MAX,
        hashes_ok(form_nodes(a), h),
        objects_told_apart(a, h),
        compiles(m, o, Ok(x)),
        keys_increase(functions) && x.function_names@ == entries_map(functions),
        keys_increase(consts) && x.const_names@ == entries_map(consts),
        keys_increase(objects) && x.objects@ == entries_map(objects),
        names == sorted(functions + consts),
    ensures
        unpacked(pack_objects(objects)) is Ok,
        routed(names, unpacked(pack_objects(objects))->Ok_0.1, false) == name_map(
            x.function_names@,
        ),
        routed(names, unpacked(pack_objects(objects))->Ok_0.1, true) == name_map(x.const_names@),
{
    compiled_modules_are_coherent(m, o, a, h, x);
    pack_keeps_names(x, functions, consts, objects, names);
}

} // verus!
