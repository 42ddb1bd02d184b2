//! Assembling a kept form again gives the same module.

use vstd::prelude::*;

use crate::bytecode::{constant_ref, ConstantView, FunctionView};
use crate::compiler::assemble::{
    assembled, check_views, hashed, input_nodes, named, text_map, unambiguous, AssembleInputs,
};
use crate::compiler::capture::relinks;
use crate::compiler::graph::on_cycle;
use crate::compiler::hash::{
    call_graph, component, final_entry, final_names, final_parents, finalizable, finalizes,
    gives_object, group_object, has_objects, hash_ok, hashes_ok, known, link_map, local_at,
    name_keys, named_members, node_hash, order_of, place_all, place_refs, plain_object, ref_nodes,
    temp_keys, NodeView,
};
use crate::compiler::module_output::{kept, name_map, object_map, parent_map, CompiledModule};
use crate::compiler::prelink::{bound_texts, inputs_of, migration_parts, PrelinkModule};
use crate::sorting::sorted_positions;
use crate::wire::{contents, Wire};

verus! {

/// Whether two functions are the same but for their hash and their debug
/// information.
pub open spec fn same_body(f: FunctionView, g: FunctionView) -> bool {
    (FunctionView { hash: g.hash, debug: g.debug, ..f }) == g
}

/// Whether two lists of nodes are the same but for the debug information of the
/// functions.
pub open spec fn same_nodes(a: Seq<NodeView>, b: Seq<NodeView>) -> bool {
    &&& a.len() == b.len()
    &&& forall|i: int|
        0 <= i < a.len() ==> (NodeView { func: b[i].func, ..#[trigger] a[i] }) == b[i] && same_body(
            a[i].func,
            b[i].func,
        )
}

proof fn lemma_same_local(a: Seq<NodeView>, b: Seq<NodeView>, h: Seq<u8>)
    requires
        same_nodes(a, b),
    ensures
        local_at(a, h) == local_at(b, h),
    decreases a.len(),
{
    if a.len() > 0 {
        let x = a.drop_last();
        let y = b.drop_last();
        assert(same_nodes(x, y)) by {
            assert forall|i: int| 0 <= i < x.len() implies (NodeView {
                func: y[i].func,
                ..#[trigger] x[i]
            }) == y[i] && same_body(x[i].func, y[i].func) by {
                assert(x[i] == a[i] && y[i] == b[i]);
            }
        }
        lemma_same_local(x, y, h);
        assert(a[a.len() - 1].temp == b[a.len() - 1].temp);
    }
}

proof fn lemma_same_refs(a: Seq<NodeView>, b: Seq<NodeView>, cs: Seq<ConstantView>)
    requires
        same_nodes(a, b),
    ensures
        ref_nodes(a, cs) == ref_nodes(b, cs),
    decreases cs.len(),
{
    if cs.len() > 0 {
        lemma_same_refs(a, b, cs.drop_last());
        if let Some(h) = constant_ref(cs.last()) {
            lemma_same_local(a, b, h);
        }
    }
}

proof fn lemma_same_graph(a: Seq<NodeView>, b: Seq<NodeView>)
    requires
        same_nodes(a, b),
    ensures
        call_graph(a) == call_graph(b),
{
    assert forall|i: int| 0 <= i < a.len() implies call_graph(a)[i] == call_graph(b)[i] by {
        assert(same_body(a[i].func, b[i].func));
        lemma_same_refs(a, b, a[i].func.constants);
    }
    assert(call_graph(a) =~= call_graph(b));
}

/// Filtering by conditions that agree gives the same.
proof fn lemma_same_filter(s: Seq<int>, f: spec_fn(int) -> bool, g: spec_fn(int) -> bool)
    requires
        forall|i: int| 0 <= i < s.len() ==> f(#[trigger] s[i]) == g(s[i]),
    ensures
        s.filter(f) == s.filter(g),
    decreases s.len(),
{
    reveal(Seq::filter);
    if s.len() > 0 {
        let t = s.drop_last();
        assert forall|i: int| 0 <= i < t.len() implies f(#[trigger] t[i]) == g(t[i]) by {
            assert(t[i] == s[i]);
        }
        lemma_same_filter(t, f, g);
        assert(s[s.len() - 1] == s.last());
    }
}

proof fn lemma_same_place_refs(
    a: Seq<NodeView>,
    b: Seq<NodeView>,
    comp: Seq<int>,
    order: Seq<int>,
    cs: Seq<ConstantView>,
)
    requires
        same_nodes(a, b),
    ensures
        place_refs(a, comp, order, cs) == place_refs(b, comp, order, cs),
    decreases cs.len(),
{
    if cs.len() > 0 {
        lemma_same_place_refs(a, b, comp, order, cs.drop_last());
        if let ConstantView::Function(h) = cs.last() {
            lemma_same_local(a, b, h);
        }
    }
}

proof fn lemma_same_place_all(
    a: Seq<NodeView>,
    b: Seq<NodeView>,
    comp: Seq<int>,
    order: Seq<int>,
    cursor: int,
)
    requires
        same_nodes(a, b),
        forall|j: int| #[trigger] comp.contains(j) ==> 0 <= j < a.len(),
        order.no_duplicates(),
        forall|j: int| #[trigger] order.contains(j) ==> comp.contains(j),
    ensures
        place_all(a, comp, order, cursor) == place_all(b, comp, order, cursor),
    decreases a.len() - cursor,
{
    if 0 <= cursor < order.len() && cursor < a.len() {
        let i = order[cursor];
        assert(order.contains(i));
        assert(comp.contains(i));
        assert(same_body(a[i].func, b[i].func));
        let cs = a[i].func.constants;
        lemma_same_place_refs(a, b, comp, order, cs);
        crate::compiler::hash::lemma_place_refs(a, comp, order, cs);
        lemma_same_place_all(a, b, comp, place_refs(a, comp, order, cs), cursor + 1);
    }
}

proof fn lemma_same_order(a: Seq<NodeView>, b: Seq<NodeView>, i: int)
    requires
        same_nodes(a, b),
        0 <= i < a.len(),
    ensures
        order_of(a, i) == order_of(b, i),
        forall|k: int|
            0 <= k < order_of(a, i).len() ==> 0 <= #[trigger] order_of(a, i)[k] < a.len(),
{
    lemma_same_graph(a, b);
    let g = call_graph(a);
    let comp = component(g, i);
    crate::compiler::hash::lemma_component_below(g, i, g.len() as int);
    assert(name_keys(a) =~= name_keys(b)) by {
        assert forall|k: int| 0 <= k < a.len() implies name_keys(a)[k] == name_keys(b)[k] by {
            assert(a[k].group_name == b[k].group_name);
        }
    }
    assert(temp_keys(a) =~= temp_keys(b)) by {
        assert forall|k: int| 0 <= k < a.len() implies temp_keys(a)[k] == temp_keys(b)[k] by {
            assert(a[k].temp == b[k].temp);
        }
    }
    let fa = |k: int| a[k].group_name is Some;
    let fb = |k: int| b[k].group_name is Some;
    assert forall|k: int| 0 <= k < comp.len() implies fa(#[trigger] comp[k]) == fb(comp[k]) by {
        assert(comp.contains(comp[k]));
        assert(a[comp[k]].group_name == b[comp[k]].group_name);
    }
    lemma_same_filter(comp, fa, fb);
    crate::compiler::hash::lemma_filter(comp, fa);
    let named = named_members(a, comp);
    let first = sorted_positions(name_keys(a), named);
    crate::sorting::sorted_positions_contents(name_keys(a), named);
    assert forall|j: int| #[trigger] first.contains(j) implies comp.contains(j) by {
        assert(named.contains(j));
    }
    lemma_same_place_all(a, b, comp, first, 0);
    crate::compiler::hash::lemma_member_order(a, comp);
    let order = order_of(a, i);
    assert forall|k: int| 0 <= k < order.len() implies 0 <= #[trigger] order[k] < a.len() by {
        assert(order.contains(order[k]));
        assert(comp.contains(order[k]));
    }
}

proof fn lemma_same_links(
    a: Seq<NodeView>,
    b: Seq<NodeView>,
    fin: Seq<Option<Seq<u8>>>,
    order: Seq<int>,
    own: int,
)
    requires
        same_nodes(a, b),
    ensures
        link_map(a, fin, order, own) == link_map(b, fin, order, own),
{
    let x = link_map(a, fin, order, own);
    let y = link_map(b, fin, order, own);
    assert forall|h: Seq<u8>| x.contains_key(h) == y.contains_key(h) by {
        lemma_same_local(a, b, h);
    }
    assert forall|h: Seq<u8>| x.contains_key(h) implies x[h] == y[h] by {
        lemma_same_local(a, b, h);
    }
    assert(x =~= y);
}

proof fn lemma_same_objects(a: Seq<NodeView>, b: Seq<NodeView>, fin: Seq<Option<Seq<u8>>>, i: int)
    requires
        same_nodes(a, b),
        0 <= i < a.len(),
    ensures
        plain_object(a, fin, i) == plain_object(b, fin, i),
        group_object(a, fin, order_of(a, i)) == group_object(b, fin, order_of(b, i)),
        order_of(a, i) == order_of(b, i),
        on_cycle(call_graph(a), i) == on_cycle(call_graph(b), i),
        node_hash(a, fin, i) == node_hash(b, fin, i),
{
    lemma_same_graph(a, b);
    lemma_same_order(a, b, i);
    lemma_same_links(a, b, fin, seq![], i);
    assert(same_body(a[i].func, b[i].func));
    let order = order_of(a, i);
    lemma_same_links(a, b, fin, order, -1);
    let x = group_object(a, fin, order)->Group_0;
    let y = group_object(b, fin, order)->Group_0;
    assert forall|k: int| 0 <= k < order.len() implies x[k] == y[k] by {
        assert(same_body(a[order[k]].func, b[order[k]].func));
        assert(a[order[k]].group_name == b[order[k]].group_name);
    }
    assert(x =~= y);
}

proof fn lemma_same_hashes(a: Seq<NodeView>, b: Seq<NodeView>, h: Seq<Seq<u8>>)
    requires
        same_nodes(a, b),
        hashes_ok(a, h),
    ensures
        hashes_ok(b, h),
{
    assert forall|i: int| 0 <= i < b.len() implies #[trigger] hash_ok(b, h, i) by {
        assert(hash_ok(a, h, i));
        lemma_same_objects(a, b, known(h), i);
    }
}

proof fn lemma_same_tables(a: Seq<NodeView>, b: Seq<NodeView>, h: Seq<Seq<u8>>, k: int)
    requires
        same_nodes(a, b),
        0 <= k <= a.len(),
    ensures
        final_names(a, h, k) == final_names(b, h, k),
        final_parents(a, h, k) == final_parents(b, h, k),
        final_entry(a, h, k) == final_entry(b, h, k),
    decreases k,
{
    if k > 0 {
        lemma_same_tables(a, b, h, k - 1);
        let x = a[k - 1];
        let y = b[k - 1];
        assert(x.name == y.name && x.lambda_parent == y.lambda_parent && x.is_main == y.is_main);
    }
}

proof fn lemma_kept_keys<A, B>(m: Map<A, B>, n: Map<A, B>, es: Seq<(A, B)>)
    requires
        m.dom() == n.dom(),
    ensures
        kept(m, es).dom() == kept(n, es).dom(),
    decreases es.len(),
{
    if es.len() > 0 {
        lemma_kept_keys(m, n, es.drop_last());
        let x = kept(m, es.drop_last());
        let y = kept(n, es.drop_last());
        let key = es.last().0;
        assert(x.contains_key(key) == y.contains_key(key)) by {
            assert(x.dom().contains(key) == y.dom().contains(key));
        }
        assert(kept(m, es).dom() =~= kept(n, es).dom());
    }
}

/// The nodes that the functions of a kept form are finalized as.
pub open spec fn prelink_nodes(p: PrelinkModule) -> Seq<NodeView> {
    let groups = bound_texts(p.ability_group_names.content());
    Seq::new(
        p.functions@.len(),
        |i: int|
            {
                let f = p.functions@[i];
                NodeView {
                    temp: f.func@.hash,
                    name: Some(f.name@),
                    group_name: Some(
                        if groups.contains_key(f.name@) {
                            groups[f.name@]
                        } else {
                            f.name@
                        },
                    ),
                    func: f.func@,
                    is_main: f.is_main,
                    lambda_parent: None,
                }
            },
    ) + Seq::new(
        p.lambdas@.len(),
        |i: int|
            NodeView {
                temp: p.lambdas@[i].temp_hash@,
                name: None,
                group_name: None,
                func: p.lambdas@[i].func@,
                is_main: false,
                lambda_parent: Some(p.lambdas@[i].parent@),
            },
    )
}

proof fn lemma_nodes_of_inputs(p: PrelinkModule, inputs: AssembleInputs)
    requires
        inputs_of(p, inputs),
    ensures
        input_nodes(inputs) == prelink_nodes(p),
{
    let x = input_nodes(inputs);
    let y = prelink_nodes(p);
    let groups = text_map(inputs.ability_impl_group_names@);
    assert forall|i: int| 0 <= i < x.len() implies x[i] == y[i] by {
        if i < p.functions@.len() {
            let f = inputs.compiled_functions@[i];
            assert(f.0@ == p.functions@[i].name@);
            assert(groups.contains_key(f.0@) == inputs.ability_impl_group_names@.contains_key(f.0@));
        } else {
            let l = inputs.lambdas@[i - p.functions@.len()];
            assert(l.0@ == p.lambdas@[i - p.functions@.len()].temp_hash@);
        }
    }
    assert(x =~= y);
}

proof fn lemma_nodes_of_view(p: PrelinkModule, d: PrelinkModule)
    requires
        p@ == d@,
    ensures
        same_nodes(prelink_nodes(p), prelink_nodes(d)),
{
    let a = prelink_nodes(p);
    let b = prelink_nodes(d);
    assert(p@.functions.len() == p.functions@.len());
    assert(d@.functions.len() == d.functions@.len());
    assert(p@.lambdas.len() == p.lambdas@.len());
    assert(d@.lambdas.len() == d.lambdas@.len());
    assert forall|i: int| 0 <= i < a.len() implies (NodeView { func: b[i].func, ..#[trigger] a[i] })
        == b[i] && same_body(a[i].func, b[i].func) by {
        if i < p.functions@.len() {
            assert(p@.functions[i] == d@.functions[i]);
        } else {
            let k = i - p.functions@.len();
            assert(p@.lambdas[k] == d@.lambdas[k]);
        }
    }
}

/// A form that says the same becomes the same module: the same objects, names,
/// constants, parents of lambdas, entry point and migrations. So a form that was written and
/// read again becomes what it became at first; only debug information, which is
/// not written, may differ.
pub proof fn replaying_gives_the_same_module(
    p: PrelinkModule,
    d: PrelinkModule,
    m: CompiledModule,
    n: CompiledModule,
)
    requires
        prelink_nodes(p).len() <= usize::MAX,
        p@ == d@,
        relinks(p, m),
        relinks(d, n),
    ensures
        object_map(m.objects@).dom() == object_map(n.objects@).dom(),
        name_map(m.function_names@) == name_map(n.function_names@),
        name_map(m.const_names@) == name_map(n.const_names@),
        parent_map(m.lambda_parents@) == parent_map(n.lambda_parents@),
        m.entry_point is Some == n.entry_point is Some,
        m.entry_point is Some ==> m.entry_point->0@ == n.entry_point->0@,
        migration_parts(m.migrations@) == migration_parts(n.migrations@),
{
    let (x, hx, bx) = choose|inputs: AssembleInputs, h: Seq<Seq<u8>>, base: CompiledModule|
        #![trigger finalizes(input_nodes(inputs), h, base), assembled(inputs, base, m)]
        inputs_of(p, inputs) && finalizable(input_nodes(inputs)) && finalizes(
            input_nodes(inputs),
            h,
            base,
        ) && assembled(inputs, base, m) && unambiguous(check_views(inputs.ability_checks@), name_map(m.function_names@));
    let (y, hy, by) = choose|inputs: AssembleInputs, h: Seq<Seq<u8>>, base: CompiledModule|
        #![trigger finalizes(input_nodes(inputs), h, base), assembled(inputs, base, n)]
        inputs_of(d, inputs) && finalizable(input_nodes(inputs)) && finalizes(
            input_nodes(inputs),
            h,
            base,
        ) && assembled(inputs, base, n) && unambiguous(check_views(inputs.ability_checks@), name_map(n.function_names@));
    let a = prelink_nodes(p);
    let b = prelink_nodes(d);
    lemma_nodes_of_inputs(p, x);
    lemma_nodes_of_inputs(d, y);
    lemma_nodes_of_view(p, d);
    lemma_same_hashes(a, b, hx);
    crate::compiler::hash::hashes_are_unique(b, hx, hy);
    lemma_same_tables(a, b, hx, a.len() as int);
    let ox = object_map(bx.objects@);
    let oy = object_map(by.objects@);
    assert forall|key: Seq<u8>| ox.contains_key(key) == oy.contains_key(key) by {
        if ox.contains_key(key) {
            let i = choose|i: int|
                0 <= i < a.len() && #[trigger] gives_object(a, known(hx), i, key, ox[key]);
            lemma_same_objects(a, b, known(hx), i);
            assert(has_objects(b, known(hy), i, oy.dom()));
        }
        if oy.contains_key(key) {
            let i = choose|i: int|
                0 <= i < b.len() && #[trigger] gives_object(b, known(hy), i, key, oy[key]);
            lemma_same_objects(a, b, known(hx), i);
            assert(has_objects(a, known(hx), i, ox.dom()));
        }
    }
    assert(ox.dom() =~= oy.dom());
    assert(contents(x.const_objects@) == contents(y.const_objects@)) by {
        assert(p@.const_objects == d@.const_objects);
    }
    assert(contents(x.native_objects@) == contents(y.native_objects@)) by {
        assert(p@.native_objects == d@.native_objects);
    }
    let cs = hashed(contents(x.const_objects@));
    let ns = hashed(contents(x.native_objects@));
    lemma_kept_keys(ox, oy, cs);
    lemma_kept_keys(kept(ox, cs), kept(oy, cs), ns);
    assert(named(x.native_names@) =~= x.native_names.content());
    assert(named(y.native_names@) =~= y.native_names.content());
    assert(named(x.const_names@) =~= x.const_names.content());
    assert(named(y.const_names@) =~= y.const_names.content());
    assert(p@.native_names == d@.native_names);
    assert(p@.migrations == d@.migrations);
    assert(p@.const_names == d@.const_names);
}

} // verus!
