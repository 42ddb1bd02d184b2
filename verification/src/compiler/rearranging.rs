//! What a finalized module does not depend on: the order in which its functions
//! are declared, and the names of those that are not recursive.

use vstd::prelude::*;

use crate::bytecode::{CompiledFunction, ConstantView, FunctionView};
use crate::compiler::graph::on_cycle;
use crate::compiler::hash::{
    call_graph, can_store, dep_linked, deps_linked, final_entry, final_functions, final_names,
    finalizable, finalizes, gives_object, has_objects, known, lambda_node, lemma_local_at,
    linked_dependencies_are_in_order, local_at, module_nodes, named_node, names_clash, objects_ok,
    order_of, NodeView,
};
use crate::compiler::invariance::{
    alike, constant_alike, function_alike, hashes_forget_order_and_names, lemma_cycle_alike,
    lemma_edge_alike, lemma_objects_alike, lemma_order_alike, moved, own_references_alike,
    places_all, rearranges, ref_alike, temps_differ, temps_in_order,
};
use crate::compiler::module_output::{function_map, name_map, object_map, CompiledModule};
use crate::digest::Digest;
use crate::order::bytes_lt;

verus! {

// ── names and entry points ──────────────────────────────────────────────────

/// Whether a node is a named function.
pub open spec fn is_named(n: NodeView) -> bool {
    n.lambda_parent is None && n.name is Some
}

/// Whether no two named functions have one name.
pub open spec fn names_differ(nodes: Seq<NodeView>) -> bool {
    forall|i: int, j: int|
        0 <= i < j < nodes.len() && is_named(#[trigger] nodes[i]) && is_named(#[trigger] nodes[j])
            ==> nodes[i].name != nodes[j].name
}

/// Whether at most one named function is marked as the entry point.
pub open spec fn one_entry(nodes: Seq<NodeView>) -> bool {
    forall|i: int, j: int|
        0 <= i < j < nodes.len() && is_named(#[trigger] nodes[i]) && is_named(#[trigger] nodes[j])
            ==> !(nodes[i].is_main && nodes[j].is_main)
}

/// The name of a named function is bound to its hash, and no other name is bound.
pub(crate) proof fn lemma_final_names(nodes: Seq<NodeView>, h: Seq<Seq<u8>>, k: int)
    requires
        names_differ(nodes),
        0 <= k <= nodes.len(),
    ensures
        forall|i: int|
            0 <= i < k && is_named(#[trigger] nodes[i]) ==> final_names(nodes, h, k).contains_key(
                nodes[i].name->0,
            ) && final_names(nodes, h, k)[nodes[i].name->0] == h[i],
        forall|s: Seq<char>| #[trigger]
            final_names(nodes, h, k).contains_key(s) ==> exists|i: int|
                0 <= i < k && is_named(#[trigger] nodes[i]) && nodes[i].name == Some(s),
    decreases k,
{
    if k > 0 {
        lemma_final_names(nodes, h, k - 1);
        let now = final_names(nodes, h, k);
        assert forall|i: int| 0 <= i < k && is_named(#[trigger] nodes[i]) implies now.contains_key(
            nodes[i].name->0,
        ) && now[nodes[i].name->0] == h[i] by {
            if i < k - 1 {
                assert(is_named(nodes[k - 1]) ==> nodes[i].name != nodes[k - 1].name);
            }
        }
        assert forall|s: Seq<char>| #[trigger] now.contains_key(s) implies exists|i: int|
            0 <= i < k && is_named(#[trigger] nodes[i]) && nodes[i].name == Some(s) by {
            if final_names(nodes, h, k - 1).contains_key(s) {
                let i = choose|i: int|
                    0 <= i < k - 1 && is_named(#[trigger] nodes[i]) && nodes[i].name == Some(s);
                assert(is_named(nodes[i]));
            } else {
                assert(is_named(nodes[k - 1]));
            }
        }
    }
}

/// The entry point is the named function that is marked.
proof fn lemma_final_entry(nodes: Seq<NodeView>, h: Seq<Seq<u8>>, k: int)
    requires
        one_entry(nodes),
        0 <= k <= nodes.len(),
    ensures
        forall|i: int|
            0 <= i < k && is_named(#[trigger] nodes[i]) && nodes[i].is_main ==> final_entry(
                nodes,
                h,
                k,
            ) == Some(h[i]),
        final_entry(nodes, h, k) is Some ==> exists|i: int|
            0 <= i < k && is_named(#[trigger] nodes[i]) && nodes[i].is_main,
    decreases k,
{
    if k > 0 {
        lemma_final_entry(nodes, h, k - 1);
        assert forall|i: int|
            0 <= i < k && is_named(#[trigger] nodes[i]) && nodes[i].is_main implies final_entry(
            nodes,
            h,
            k,
        ) == Some(h[i]) by {
            if i < k - 1 {
                assert(!(is_named(nodes[k - 1]) && nodes[k - 1].is_main));
            }
        }
        if is_named(nodes[k - 1]) && nodes[k - 1].is_main {
        } else if final_entry(nodes, h, k) is Some {
            let i = choose|i: int|
                0 <= i < k - 1 && is_named(#[trigger] nodes[i]) && nodes[i].is_main;
            assert(is_named(nodes[i]));
        }
    }
}

/// A function stands under every hash, and under no other.
proof fn lemma_final_functions(nodes: Seq<NodeView>, h: Seq<Seq<u8>>, k: int, x: Seq<u8>)
    requires
        0 <= k <= h.len(),
    ensures
        final_functions(nodes, h, k).contains_key(x) <==> exists|i: int|
            0 <= i < k && #[trigger] h[i] == x,
    decreases k,
{
    if k > 0 {
        lemma_final_functions(nodes, h, k - 1, x);
        assert(h[k - 1] == x ==> exists|i: int| 0 <= i < k && #[trigger] h[i] == x);
    }
}

// ── modules ─────────────────────────────────────────────────────────────────

/// A finalized module depends neither on the order in which functions are
/// declared, nor on the names of functions that are not recursive: the functions
/// stand under the same hashes, and the objects are those of the same functions
/// under the same keys. A function is bound to the same hash under its name,
/// whatever that is.
pub proof fn modules_forget_order_and_names(
    a: Seq<NodeView>,
    b: Seq<NodeView>,
    p: Seq<int>,
    q: Seq<int>,
    ha: Seq<Seq<u8>>,
    ma: CompiledModule,
    hb: Seq<Seq<u8>>,
    mb: CompiledModule,
)
    requires
        a.len() <= usize::MAX,
        alike(a, b, p, q),
        temps_in_order(a, b, p) && temps_differ(a) || places_all(a),
        own_references_alike(a, b, p),
        deps_linked(a),
        finalizable(a),
        finalizes(a, ha, ma),
        finalizes(b, hb, mb),
    ensures
        forall|i: int| 0 <= i < a.len() ==> #[trigger] ha[i] == hb[p[i]],
        function_map(ma.functions@).dom() == function_map(mb.functions@).dom(),
        object_map(ma.objects@).dom() == object_map(mb.objects@).dom(),
        objects_ok(a, ha, object_map(mb.objects@)),
        names_differ(a) && names_differ(b) ==> forall|i: int|
            0 <= i < a.len() && is_named(#[trigger] a[i]) && is_named(b[p[i]]) ==> name_map(
                ma.function_names@,
            )[a[i].name->0] == name_map(mb.function_names@)[b[p[i]].name->0],
{
    let n = a.len() as int;
    assert forall|j: int| 0 <= j < a.len() && on_cycle(call_graph(a), j) implies !names_clash(
        a,
        #[trigger] order_of(a, j),
    ) by {
        assert(can_store(a, j));
    }
    hashes_forget_order_and_names(a, b, p, q, ha, hb);
    let fa = function_map(ma.functions@);
    let fb = function_map(mb.functions@);
    assert forall|x: Seq<u8>| fa.contains_key(x) == fb.contains_key(x) by {
        lemma_final_functions(a, ha, n, x);
        lemma_final_functions(b, hb, n, x);
        if fa.contains_key(x) {
            let i = choose|i: int| 0 <= i < n && #[trigger] ha[i] == x;
            assert(hb[p[i]] == x);
        }
        if fb.contains_key(x) {
            let i = choose|i: int| 0 <= i < n && #[trigger] hb[i] == x;
            assert(p[q[i]] == i);
            assert(ha[q[i]] == x);
        }
    }
    assert(fa.dom() =~= fb.dom());
    let oa = object_map(ma.objects@);
    let ob = object_map(mb.objects@);
    assert forall|key: Seq<u8>| #[trigger] ob.contains_key(key) implies exists|i: int|
        0 <= i < n && #[trigger] gives_object(a, known(ha), i, key, ob[key]) by {
        let j = choose|j: int|
            0 <= j < n && #[trigger] gives_object(b, known(hb), j, key, ob[key]);
        let i = q[j];
        assert(p[i] == j);
        lemma_objects_alike(a, b, p, q, ha, hb, i);
        assert(gives_object(a, known(ha), i, key, ob[key]));
    }
    assert forall|i: int| 0 <= i < n implies #[trigger] has_objects(a, known(ha), i, ob.dom()) by {
        lemma_objects_alike(a, b, p, q, ha, hb, i);
        assert(has_objects(b, known(hb), p[i], ob.dom()));
    }
    assert forall|key: Seq<u8>| oa.contains_key(key) == ob.contains_key(key) by {
        if oa.contains_key(key) {
            let i = choose|i: int|
                0 <= i < n && #[trigger] gives_object(a, known(ha), i, key, oa[key]);
            assert(has_objects(a, known(ha), i, ob.dom()));
        }
        if ob.contains_key(key) {
            let i = choose|i: int|
                0 <= i < n && #[trigger] gives_object(a, known(ha), i, key, ob[key]);
            assert(has_objects(a, known(ha), i, oa.dom()));
        }
    }
    assert(oa.dom() =~= ob.dom());
    if names_differ(a) && names_differ(b) {
        lemma_final_names(a, ha, n);
        lemma_final_names(b, hb, n);
        assert forall|i: int|
            0 <= i < n && is_named(#[trigger] a[i]) && is_named(b[p[i]]) implies name_map(
            ma.function_names@,
        )[a[i].name->0] == name_map(mb.function_names@)[b[p[i]].name->0] by {
            assert(ha[i] == hb[p[i]]);
        }
    }
}

// ── declaring in another order ──────────────────────────────────────────────

/// Whether node lists hold the same nodes, one in another order.
pub open spec fn permutes(a: Seq<NodeView>, b: Seq<NodeView>, p: Seq<int>, q: Seq<int>) -> bool {
    &&& a.len() == b.len()
    &&& rearranges(a.len(), p, q)
    &&& forall|i: int| 0 <= i < a.len() ==> (#[trigger] a[i]) == b[p[i]]
}

proof fn lemma_permuted_local(
    a: Seq<NodeView>,
    b: Seq<NodeView>,
    p: Seq<int>,
    q: Seq<int>,
    x: Seq<u8>,
)
    requires
        permutes(a, b, p, q),
        temps_differ(a),
    ensures
        ref_alike(a, b, p, x, x),
{
    lemma_local_at(a, x);
    lemma_local_at(b, x);
    match (local_at(a, x), local_at(b, x)) {
        (Some(i), Some(j)) => {
            let k = q[j];
            assert(p[k] == j);
            assert(a[k] == b[p[k]]);
            assert(a[k].temp == a[i].temp);
        },
        (Some(i), None) => {
            assert(a[i] == b[p[i]]);
            assert(b[p[i]].temp != x);
        },
        (None, Some(j)) => {
            assert(p[q[j]] == j);
            assert(a[q[j]] == b[p[q[j]]]);
        },
        _ => {},
    }
}

proof fn lemma_permuted_function(
    a: Seq<NodeView>,
    b: Seq<NodeView>,
    p: Seq<int>,
    q: Seq<int>,
    f: FunctionView,
)
    requires
        permutes(a, b, p, q),
        temps_differ(a),
    ensures
        function_alike(a, b, p, f, f),
{
    assert forall|k: int| 0 <= k < f.constants.len() implies #[trigger] constant_alike(
        a,
        b,
        p,
        f.constants[k],
        f.constants[k],
    ) by {
        match f.constants[k] {
            ConstantView::Function(x) => {
                lemma_permuted_local(a, b, p, q, x);
            },
            ConstantView::Method(m) => {
                if let Some(x) = m.impl_fn {
                    lemma_permuted_local(a, b, p, q, x);
                }
            },
            _ => {},
        }
    }
    assert forall|k: int| 0 <= k < f.dependencies.len() implies #[trigger] ref_alike(
        a,
        b,
        p,
        f.dependencies[k],
        f.dependencies[k],
    ) by {
        lemma_permuted_local(a, b, p, q, f.dependencies[k]);
    }
}

proof fn lemma_permuted(a: Seq<NodeView>, b: Seq<NodeView>, p: Seq<int>, q: Seq<int>)
    requires
        permutes(a, b, p, q),
        temps_differ(a),
    ensures
        alike(a, b, p, q),
        temps_in_order(a, b, p),
        own_references_alike(a, b, p),
{
    assert forall|i: int| 0 <= i < a.len() implies #[trigger] function_alike(
        a,
        b,
        p,
        a[i].func,
        b[p[i]].func,
    ) by {
        lemma_permuted_function(a, b, p, q, a[i].func);
    }
    assert forall|i: int, j: int| 0 <= i < a.len() && 0 <= j < a.len() && i != j implies (bytes_lt(
        (#[trigger] a[i]).temp,
        (#[trigger] a[j]).temp,
    ) <==> bytes_lt(b[p[i]].temp, b[p[j]].temp)) by {
        assert(a[i] == b[p[i]] && a[j] == b[p[j]]);
    }
    assert forall|i: int, k: int|
        0 <= i < a.len() && 0 <= k < a[i].func.dependencies.len() && local_at(
            a,
            #[trigger] a[i].func.dependencies[k],
        ) == Some(i) && !on_cycle(call_graph(a), i) implies a[i].func.dependencies[k]
        == b[p[i]].func.dependencies[k] by {
        assert(a[i] == b[p[i]]);
    }
}

/// Nodes can be finalized in whatever order they come, where every dependency is
/// linked.
proof fn lemma_permuted_finalizable(
    a: Seq<NodeView>,
    b: Seq<NodeView>,
    p: Seq<int>,
    q: Seq<int>,
)
    requires
        a.len() <= usize::MAX,
        permutes(a, b, p, q),
        temps_differ(a),
        deps_linked(a),
        finalizable(a),
    ensures
        finalizable(b),
{
    lemma_permuted(a, b, p, q);
    assert forall|j: int| 0 <= j < b.len() implies #[trigger] can_store(b, j) by {
        let i = q[j];
        assert(p[i] == j);
        assert(a[i] == b[p[i]]);
        assert(can_store(a, i));
        lemma_cycle_alike(a, b, p, q, i);
        if on_cycle(call_graph(b), j) {
            lemma_order_alike(a, b, p, q, i);
            let oa = order_of(a, i);
            let ob = order_of(b, j);
            assert(ob == moved(p, oa));
            crate::compiler::hash::lemma_component_below(
                call_graph(a),
                i,
                call_graph(a).len() as int,
            );
            crate::compiler::hash::lemma_member_order(
                a,
                crate::compiler::hash::component(call_graph(a), i),
            );
            if names_clash(b, ob) {
                let (x, y) = choose|x: int, y: int|
                    0 <= x < y < ob.len() && (#[trigger] b[ob[x]]).group_name is Some
                        && b[ob[x]].group_name == (#[trigger] b[ob[y]]).group_name;
                assert(oa.contains(oa[x]) && oa.contains(oa[y]));
                assert(a[oa[x]] == b[p[oa[x]]]);
                assert(a[oa[y]] == b[p[oa[y]]]);
                assert(names_clash(a, oa));
            }
        }
    }
    assert(deps_linked(b)) by {
        assert forall|j: int, k: int|
            0 <= j < b.len() && 0 <= k < b[j].func.dependencies.len() implies dep_linked(
            b,
            j,
            #[trigger] b[j].func.dependencies[k],
        ) by {
            let i = q[j];
            assert(p[i] == j);
            assert(a[i] == b[p[i]]);
            let d = a[i].func.dependencies[k];
            assert(dep_linked(a, i, a[i].func.dependencies[k]));
            lemma_permuted_local(a, b, p, q, d);
            lemma_local_at(a, d);
            if let Some(x) = local_at(a, d) {
                if x != i {
                    lemma_edge_alike(a, b, p, q, i, x);
                }
            }
        }
    }
    linked_dependencies_are_in_order(b);
}

/// Whether a list of functions and one of lambdas are others in another order.
pub open spec fn reordered(
    fs: Seq<(String, CompiledFunction, bool)>,
    ls: Seq<(Digest, String, CompiledFunction)>,
    gs: Seq<(String, CompiledFunction, bool)>,
    ks: Seq<(Digest, String, CompiledFunction)>,
    pf: Seq<int>,
    qf: Seq<int>,
    pl: Seq<int>,
    ql: Seq<int>,
) -> bool {
    &&& fs.len() == gs.len()
    &&& ls.len() == ks.len()
    &&& rearranges(fs.len(), pf, qf)
    &&& rearranges(ls.len(), pl, ql)
    &&& forall|i: int|
        0 <= i < fs.len() ==> (#[trigger] fs[i]).0@ == gs[pf[i]].0@ && fs[i].1@ == gs[pf[i]].1@
            && fs[i].2 == gs[pf[i]].2
    &&& forall|i: int|
        0 <= i < ls.len() ==> (#[trigger] ls[i]).0@ == ks[pl[i]].0@ && ls[i].1@ == ks[pl[i]].1@
            && ls[i].2@ == ks[pl[i]].2@
}

/// A module does not depend on the order in which its functions and lambdas come,
/// where names and temporary hashes are distinct, at most one function is the
/// entry point, and constants refer to every dependency on a function of the
/// module: where it can be finalized in one order it can in the other, and has the
/// same objects, names, entry point and hashes of functions. The dependencies of a
/// compiled module are linked.
pub proof fn reordered_functions_give_the_same_module(
    fs: Seq<(String, CompiledFunction, bool)>,
    ls: Seq<(Digest, String, CompiledFunction)>,
    gs: Seq<(String, CompiledFunction, bool)>,
    ks: Seq<(Digest, String, CompiledFunction)>,
    groups: Map<Seq<char>, String>,
    pf: Seq<int>,
    qf: Seq<int>,
    pl: Seq<int>,
    ql: Seq<int>,
    ha: Seq<Seq<u8>>,
    ma: CompiledModule,
    hb: Seq<Seq<u8>>,
    mb: CompiledModule,
)
    requires
        reordered(fs, ls, gs, ks, pf, qf, pl, ql),
        fs.len() + ls.len() <= usize::MAX,
        temps_differ(module_nodes(fs, ls, groups)),
        names_differ(module_nodes(fs, ls, groups)),
        one_entry(module_nodes(fs, ls, groups)),
        deps_linked(module_nodes(fs, ls, groups)),
        finalizable(module_nodes(fs, ls, groups)),
    ensures
        finalizable(module_nodes(gs, ks, groups)),
        finalizes(module_nodes(fs, ls, groups), ha, ma) && finalizes(
            module_nodes(gs, ks, groups),
            hb,
            mb,
        ) ==> {
            &&& object_map(ma.objects@).dom() == object_map(mb.objects@).dom()
            &&& objects_ok(module_nodes(fs, ls, groups), ha, object_map(mb.objects@))
            &&& function_map(ma.functions@).dom() == function_map(mb.functions@).dom()
            &&& name_map(ma.function_names@) == name_map(mb.function_names@)
            &&& ma.entry_point is Some == mb.entry_point is Some
            &&& ma.entry_point is Some ==> ma.entry_point->0@ == mb.entry_point->0@
        },
{
    let a = module_nodes(fs, ls, groups);
    let b = module_nodes(gs, ks, groups);
    let n = a.len() as int;
    let nf = fs.len() as int;
    let p = pf + Seq::new(pl.len(), |i: int| pl[i] + nf);
    let q = qf + Seq::new(ql.len(), |i: int| ql[i] + nf);
    assert forall|i: int| 0 <= i < n implies 0 <= #[trigger] p[i] < n && q[p[i]] == i by {
        if i < nf {
            assert(0 <= pf[i] < nf && qf[pf[i]] == i);
        } else {
            let k = i - nf;
            assert(0 <= pl[k] < ls.len() && ql[pl[k]] == k);
        }
    }
    assert forall|i: int| 0 <= i < n implies 0 <= #[trigger] q[i] < n && p[q[i]] == i by {
        if i < nf {
            assert(0 <= qf[i] < nf && pf[qf[i]] == i);
        } else {
            let k = i - nf;
            assert(0 <= ql[k] < ls.len() && pl[ql[k]] == k);
        }
    }
    assert forall|i: int| 0 <= i < n implies (#[trigger] a[i]) == b[p[i]] by {
        if i < nf {
            assert(fs[i].0@ == gs[pf[i]].0@);
            assert(0 <= pf[i] < nf);
            assert(a[i] == named_node(fs[i], groups));
            assert(b[p[i]] == named_node(gs[pf[i]], groups));
        } else {
            let k = i - nf;
            assert(ls[k].0@ == ks[pl[k]].0@);
            assert(0 <= pl[k] < ls.len());
            assert(a[i] == lambda_node(ls[k]));
            assert(b[p[i]] == lambda_node(ks[pl[k]]));
        }
    }
    lemma_permuted(a, b, p, q);
    lemma_permuted_finalizable(a, b, p, q);
    if finalizes(a, ha, ma) && finalizes(b, hb, mb) {
        modules_forget_order_and_names(a, b, p, q, ha, ma, hb, mb);
        assert forall|i: int, j: int|
            0 <= i < j < n && is_named(#[trigger] b[i]) && is_named(
                #[trigger] b[j],
            ) implies b[i].name != b[j].name && !(b[i].is_main && b[j].is_main) by {
            assert(p[q[i]] == i && p[q[j]] == j);
            assert(a[q[i]] == b[p[q[i]]] && a[q[j]] == b[p[q[j]]]);
            assert(q[i] != q[j]);
            assert(is_named(a[q[i]]) && is_named(a[q[j]]));
            if q[i] > q[j] {
                assert(a[q[j]].name != a[q[i]].name);
            }
        }
        lemma_final_names(a, ha, n);
        lemma_final_names(b, hb, n);
        let x = name_map(ma.function_names@);
        let y = name_map(mb.function_names@);
        assert forall|s: Seq<char>| x.contains_key(s) == y.contains_key(s) && (x.contains_key(s)
            ==> x[s] == y[s]) by {
            if x.contains_key(s) {
                let i = choose|i: int|
                    0 <= i < n && is_named(#[trigger] a[i]) && a[i].name == Some(s);
                assert(a[i] == b[p[i]]);
                assert(ha[i] == hb[p[i]]);
            }
            if y.contains_key(s) {
                let j = choose|j: int|
                    0 <= j < n && is_named(#[trigger] b[j]) && b[j].name == Some(s);
                assert(p[q[j]] == j);
                assert(a[q[j]] == b[p[q[j]]]);
            }
        }
        assert(x =~= y);
        lemma_final_entry(a, ha, n);
        lemma_final_entry(b, hb, n);
        if ma.entry_point is Some {
            let i = choose|i: int| 0 <= i < n && is_named(#[trigger] a[i]) && a[i].is_main;
            assert(a[i] == b[p[i]]);
            assert(ha[i] == hb[p[i]]);
        }
        if mb.entry_point is Some {
            let j = choose|j: int| 0 <= j < n && is_named(#[trigger] b[j]) && b[j].is_main;
            assert(p[q[j]] == j);
            assert(a[q[j]] == b[p[q[j]]]);
        }
    }
}

} // verus!
