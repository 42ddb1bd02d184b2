//! What final hashes do not depend on.
//!
//! Functions may be declared in another order, functions that are not recursive
//! may be renamed, and temporary hashes may be other ones: the final hashes stay
//! the same. What they depend on is what each function does and what it refers
//! to, and the names of recursive functions.

use vstd::prelude::*;

use crate::bytecode::{constant_ref, ConstantView, FunctionView, MethodView};
use crate::compiler::graph::{
    edge, on_cycle, reach_count, reached_in_range, reached_reaches_fewer, reaches, reaches_itself,
    reaches_step, same_component, step_ok, walk,
};
use crate::compiler::hash::{
    call_graph, component, deps_linked, dep_linked, group_object, hash_ok, hashes_ok, known,
    lemma_component_below, lemma_constant_edge, lemma_filter, lemma_local_at, lemma_member_order,
    link_map, local_at, name_keys, named_members, names_clash, node_hash, order_of, place_all,
    place_refs, plain_object, ref_nodes, temp_keys, NodeView,
};
use crate::object::{resolved, stored_function, RefView};
use crate::order::{bytes_lt, bytes_lt_irreflexive, bytes_lt_total, bytes_lt_transitive};
use crate::sorting::{insert_position, sorted_positions, sorted_positions_contents};

verus! {

/// Node lists of which one is the other in another order: node `i` of the one is
/// node `p[i]` of the other, which is taken back by `q`.
pub open spec fn rearranges(n: nat, p: Seq<int>, q: Seq<int>) -> bool {
    &&& p.len() == n
    &&& q.len() == n
    &&& forall|i: int| 0 <= i < n ==> 0 <= #[trigger] p[i] < n && q[p[i]] == i
    &&& forall|i: int| 0 <= i < n ==> 0 <= #[trigger] q[i] < n && p[q[i]] == i
}

/// Whether two hashes refer to the same: to nodes that correspond, or both to
/// the same thing outside.
pub open spec fn ref_alike(
    a: Seq<NodeView>,
    b: Seq<NodeView>,
    p: Seq<int>,
    x: Seq<u8>,
    y: Seq<u8>,
) -> bool {
    match (local_at(a, x), local_at(b, y)) {
        (Some(i), Some(j)) => j == p[i],
        (None, None) => x == y,
        _ => false,
    }
}

/// Whether two constants are the same but for what they refer to, and refer to
/// the same.
pub open spec fn constant_alike(
    a: Seq<NodeView>,
    b: Seq<NodeView>,
    p: Seq<int>,
    c: ConstantView,
    d: ConstantView,
) -> bool {
    match (c, d) {
        (ConstantView::Function(x), ConstantView::Function(y)) => ref_alike(a, b, p, x, y),
        (ConstantView::Method(m), ConstantView::Method(n)) => {
            &&& m == (MethodView { impl_fn: m.impl_fn, ..n })
            &&& match (m.impl_fn, n.impl_fn) {
                (Some(x), Some(y)) => ref_alike(a, b, p, x, y),
                (None, None) => true,
                _ => false,
            }
        },
        _ => c == d && !(c is Function) && !(c is Method),
    }
}

/// Whether two functions do the same and refer to the same. What they are called
/// and where they came from makes no difference.
pub open spec fn function_alike(
    a: Seq<NodeView>,
    b: Seq<NodeView>,
    p: Seq<int>,
    f: FunctionView,
    g: FunctionView,
) -> bool {
    &&& f.bytecode == g.bytecode
    &&& f.local_count == g.local_count
    &&& f.param_count == g.param_count
    &&& f.constants.len() == g.constants.len()
    &&& forall|k: int|
        0 <= k < f.constants.len() ==> #[trigger] constant_alike(
            a,
            b,
            p,
            f.constants[k],
            g.constants[k],
        )
    &&& f.dependencies.len() == g.dependencies.len()
    &&& forall|k: int|
        0 <= k < f.dependencies.len() ==> #[trigger] ref_alike(
            a,
            b,
            p,
            f.dependencies[k],
            g.dependencies[k],
        )
}

/// Whether the order by temporary hash is the same for recursive nodes.
pub open spec fn temps_in_order(a: Seq<NodeView>, b: Seq<NodeView>, p: Seq<int>) -> bool {
    forall|i: int, j: int|
        0 <= i < a.len() && 0 <= j < a.len() && i != j && on_cycle(call_graph(a), i) && on_cycle(
            call_graph(a),
            j,
        ) ==> (bytes_lt(
            (#[trigger] a[i]).temp,
            (#[trigger] a[j]).temp,
        ) <==> bytes_lt(b[p[i]].temp, b[p[j]].temp))
}

/// Whether every member of a recursive group is named or referred to by one that
/// was placed before it, so that no order by temporary hash is needed.
pub open spec fn places_all(a: Seq<NodeView>) -> bool {
    forall|i: int, j: int|
        0 <= i < a.len() && #[trigger] same_component(call_graph(a), i, j) && on_cycle(
            call_graph(a),
            i,
        ) ==> placed_members(a, component(call_graph(a), i)).contains(j)
}

/// The members of a component that are named or referred to.
pub open spec fn placed_members(a: Seq<NodeView>, comp: Seq<int>) -> Seq<int> {
    place_all(a, comp, sorted_positions(name_keys(a), named_members(a, comp)), 0)
}

/// Whether two lists of nodes are the same but for the order of the nodes, the
/// names of those that are not recursive, and the temporary hashes.
pub open spec fn alike(a: Seq<NodeView>, b: Seq<NodeView>, p: Seq<int>, q: Seq<int>) -> bool {
    &&& a.len() == b.len()
    &&& rearranges(a.len(), p, q)
    &&& forall|i: int|
        0 <= i < a.len() ==> #[trigger] function_alike(a, b, p, a[i].func, b[p[i]].func)
    &&& forall|i: int|
        0 <= i < a.len() && (on_cycle(call_graph(a), i) || on_cycle(call_graph(b), p[i]))
            ==> (#[trigger] a[i]).group_name == b[p[i]].group_name
}

// ── the call graph ──────────────────────────────────────────────────────────

proof fn lemma_ref_back(
    a: Seq<NodeView>,
    b: Seq<NodeView>,
    p: Seq<int>,
    q: Seq<int>,
    x: Seq<u8>,
    y: Seq<u8>,
)
    requires
        a.len() == b.len(),
        rearranges(a.len(), p, q),
        ref_alike(a, b, p, x, y),
    ensures
        ref_alike(b, a, q, y, x),
{
    lemma_local_at(a, x);
    lemma_local_at(b, y);
    if let Some(i) = local_at(a, x) {
        assert(q[p[i]] == i);
    }
}

/// The relation holds the other way round too.
pub(crate) proof fn lemma_alike_back(a: Seq<NodeView>, b: Seq<NodeView>, p: Seq<int>, q: Seq<int>)
    requires
        alike(a, b, p, q),
    ensures
        alike(b, a, q, p),
{
    assert forall|j: int| 0 <= j < b.len() implies #[trigger] function_alike(
        b,
        a,
        q,
        b[j].func,
        a[q[j]].func,
    ) by {
        let i = q[j];
        assert(p[i] == j);
        assert(function_alike(a, b, p, a[i].func, b[p[i]].func));
        let f = a[i].func;
        let g = b[j].func;
        assert forall|k: int| 0 <= k < g.constants.len() implies #[trigger] constant_alike(
            b,
            a,
            q,
            g.constants[k],
            f.constants[k],
        ) by {
            assert(constant_alike(a, b, p, f.constants[k], g.constants[k]));
            match (f.constants[k], g.constants[k]) {
                (ConstantView::Function(x), ConstantView::Function(y)) => {
                    lemma_ref_back(a, b, p, q, x, y);
                },
                (ConstantView::Method(m), ConstantView::Method(n)) => {
                    if let (Some(x), Some(y)) = (m.impl_fn, n.impl_fn) {
                        lemma_ref_back(a, b, p, q, x, y);
                    }
                },
                _ => {},
            }
        }
        assert forall|k: int| 0 <= k < g.dependencies.len() implies #[trigger] ref_alike(
            b,
            a,
            q,
            g.dependencies[k],
            f.dependencies[k],
        ) by {
            assert(ref_alike(a, b, p, f.dependencies[k], g.dependencies[k]));
            lemma_ref_back(a, b, p, q, f.dependencies[k], g.dependencies[k]);
        }
    }
    assert forall|j: int|
        0 <= j < b.len() && (on_cycle(call_graph(b), j) || on_cycle(
            call_graph(a),
            q[j],
        )) implies (#[trigger] b[j]).group_name == a[q[j]].group_name by {
        let i = q[j];
        assert(p[i] == j);
        assert(a[i].group_name == b[p[i]].group_name);
    }
}

proof fn lemma_constant_ref_alike(
    a: Seq<NodeView>,
    b: Seq<NodeView>,
    p: Seq<int>,
    c: ConstantView,
    d: ConstantView,
)
    requires
        constant_alike(a, b, p, c, d),
    ensures
        (constant_ref(c) is Some) == (constant_ref(d) is Some),
        constant_ref(c) is Some ==> ref_alike(a, b, p, constant_ref(c)->0, constant_ref(d)->0),
{
}

pub(crate) proof fn lemma_edge_alike(a: Seq<NodeView>, b: Seq<NodeView>, p: Seq<int>, q: Seq<int>, i: int, j: int)
    requires
        a.len() <= usize::MAX,
        alike(a, b, p, q),
        edge(call_graph(a), i, j),
    ensures
        edge(call_graph(b), p[i], p[j]),
{
    let f = a[i].func;
    let g = b[p[i]].func;
    assert(function_alike(a, b, p, f, g));
    lemma_edge_constant(a, f.constants, j);
    let k = choose|k: int|
        0 <= k < f.constants.len() && constant_ref(#[trigger] f.constants[k]) is Some && local_at(
            a,
            constant_ref(f.constants[k])->0,
        ) == Some(j);
    assert(constant_alike(a, b, p, f.constants[k], g.constants[k]));
    lemma_constant_ref_alike(a, b, p, f.constants[k], g.constants[k]);
    lemma_constant_edge(b, p[i], k);
}

/// An edge comes from a constant.
proof fn lemma_edge_constant(a: Seq<NodeView>, cs: Seq<ConstantView>, j: int)
    requires
        a.len() <= usize::MAX,
        exists|e: int| 0 <= e < ref_nodes(a, cs).len() && (#[trigger] ref_nodes(a, cs)[e]) == j,
    ensures
        exists|k: int|
            0 <= k < cs.len() && constant_ref(#[trigger] cs[k]) is Some && local_at(
                a,
                constant_ref(cs[k])->0,
            ) == Some(j),
    decreases cs.len(),
{
    let all = ref_nodes(a, cs);
    let e = choose|e: int| 0 <= e < all.len() && (#[trigger] all[e]) == j;
    if cs.len() > 0 {
        let rest = cs.drop_last();
        let before = ref_nodes(a, rest);
        if e < before.len() {
            assert(before[e] == j);
            lemma_edge_constant(a, rest, j);
            let k = choose|k: int|
                0 <= k < rest.len() && constant_ref(#[trigger] rest[k]) is Some && local_at(
                    a,
                    constant_ref(rest[k])->0,
                ) == Some(j);
            assert(cs[k] == rest[k]);
        } else {
            let k = cs.len() - 1;
            assert(cs[k] == cs.last());
            let x = constant_ref(cs[k])->0;
            lemma_local_at(a, x);
        }
    }
}

proof fn lemma_reaches_alike(a: Seq<NodeView>, b: Seq<NodeView>, p: Seq<int>, q: Seq<int>, i: int, j: int)
    requires
        a.len() <= usize::MAX,
        alike(a, b, p, q),
        reaches(call_graph(a), i, j),
    ensures
        0 <= j < a.len(),
        reaches(call_graph(b), p[i], p[j]),
{
    let g = call_graph(a);
    let h = call_graph(b);
    reached_in_range(g, i, j);
    let w = choose|w: Seq<int>| walk(g, w, i, j);
    let v = Seq::new(w.len(), |k: int| p[w[k]]);
    assert forall|k: int| 0 <= k < v.len() - 1 implies #[trigger] step_ok(h, v, k) by {
        assert(step_ok(g, w, k));
        lemma_edge_alike(a, b, p, q, w[k], w[k + 1]);
    }
    assert(walk(h, v, p[i], p[j]));
}

proof fn lemma_component_alike(
    a: Seq<NodeView>,
    b: Seq<NodeView>,
    p: Seq<int>,
    q: Seq<int>,
    i: int,
    j: int,
)
    requires
        a.len() <= usize::MAX,
        alike(a, b, p, q),
        0 <= i < a.len(),
        0 <= j < a.len(),
    ensures
        same_component(call_graph(a), i, j) == same_component(call_graph(b), p[i], p[j]),
{
    lemma_alike_back(a, b, p, q);
    if same_component(call_graph(a), i, j) {
        lemma_reaches_alike(a, b, p, q, i, j);
        lemma_reaches_alike(a, b, p, q, j, i);
    }
    if same_component(call_graph(b), p[i], p[j]) {
        lemma_reaches_alike(b, a, q, p, p[i], p[j]);
        lemma_reaches_alike(b, a, q, p, p[j], p[i]);
    }
}

proof fn lemma_cycle_forward(a: Seq<NodeView>, b: Seq<NodeView>, p: Seq<int>, q: Seq<int>, i: int)
    requires
        a.len() <= usize::MAX,
        alike(a, b, p, q),
        0 <= i < a.len(),
        on_cycle(call_graph(a), i),
    ensures
        on_cycle(call_graph(b), p[i]),
{
    let g = call_graph(a);
    if edge(g, i, i) {
        lemma_edge_alike(a, b, p, q, i, i);
    } else {
        let j = choose|j: int| j != i && #[trigger] same_component(g, i, j);
        reached_in_range(g, i, j);
        lemma_component_alike(a, b, p, q, i, j);
        assert(q[p[i]] == i && q[p[j]] == j);
        assert(same_component(call_graph(b), p[i], p[j]));
    }
}

pub(crate) proof fn lemma_cycle_alike(a: Seq<NodeView>, b: Seq<NodeView>, p: Seq<int>, q: Seq<int>, i: int)
    requires
        a.len() <= usize::MAX,
        alike(a, b, p, q),
        0 <= i < a.len(),
    ensures
        on_cycle(call_graph(a), i) == on_cycle(call_graph(b), p[i]),
{
    if on_cycle(call_graph(a), i) {
        lemma_cycle_forward(a, b, p, q, i);
    }
    if on_cycle(call_graph(b), p[i]) {
        lemma_alike_back(a, b, p, q);
        lemma_cycle_forward(b, a, q, p, p[i]);
    }
}

// ── sorting ─────────────────────────────────────────────────────────────────

/// Whether positions stand in strictly increasing order of their keys.
pub open spec fn strictly_ordered(keys: Seq<Seq<u8>>, s: Seq<int>) -> bool {
    forall|i: int, j: int|
        0 <= i < j < s.len() ==> bytes_lt(keys[#[trigger] s[i]], keys[#[trigger] s[j]])
}

proof fn lemma_insert_ordered(keys: Seq<Seq<u8>>, s: Seq<int>, x: int)
    requires
        strictly_ordered(keys, s),
        forall|i: int| 0 <= i < s.len() ==> keys[#[trigger] s[i]] != keys[x],
    ensures
        strictly_ordered(keys, insert_position(keys, s, x)),
        insert_position(keys, s, x).len() == s.len() + 1,
        forall|i: int|
            0 <= i <= s.len() ==> #[trigger] insert_position(keys, s, x)[i] == x || s.contains(
                insert_position(keys, s, x)[i],
            ),
    decreases s.len(),
{
    let r = insert_position(keys, s, x);
    if s.len() > 0 && bytes_lt(keys[x], keys[s.last()]) {
        let t = s.drop_last();
        assert forall|i: int| 0 <= i < t.len() implies keys[#[trigger] t[i]] != keys[x] by {
            assert(t[i] == s[i]);
        }
        assert(strictly_ordered(keys, t)) by {
            assert forall|i: int, j: int| 0 <= i < j < t.len() implies bytes_lt(
                keys[#[trigger] t[i]],
                keys[#[trigger] t[j]],
            ) by {
                assert(t[i] == s[i] && t[j] == s[j]);
            }
        }
        lemma_insert_ordered(keys, t, x);
        let u = insert_position(keys, t, x);
        assert forall|i: int, j: int| 0 <= i < j < r.len() implies bytes_lt(
            keys[#[trigger] r[i]],
            keys[#[trigger] r[j]],
        ) by {
            assert(r[i] == u[i]);
            if j < u.len() {
                assert(r[j] == u[j]);
            } else if u[i] != x {
                let k = t.index_of(u[i]);
                assert(s[k] == u[i]);
                assert(s[s.len() - 1] == r[j]);
            }
        }
        assert forall|i: int| 0 <= i <= s.len() implies #[trigger] r[i] == x || s.contains(
            r[i],
        ) by {
            if i < u.len() {
                assert(r[i] == u[i]);
                if u[i] != x {
                    let k = t.index_of(u[i]);
                    assert(s[k] == u[i]);
                }
            } else {
                assert(s[s.len() - 1] == r[i]);
            }
        }
    } else {
        assert forall|i: int, j: int| 0 <= i < j < r.len() implies bytes_lt(
            keys[#[trigger] r[i]],
            keys[#[trigger] r[j]],
        ) by {
            assert(r[i] == s[i]);
            if j < s.len() {
                assert(r[j] == s[j]);
            } else {
                let last = s[s.len() - 1];
                bytes_lt_total(keys[last], keys[x]);
                if i < s.len() - 1 {
                    assert(bytes_lt(keys[s[i]], keys[last]));
                    bytes_lt_transitive(keys[s[i]], keys[last], keys[x]);
                }
            }
        }
        assert forall|i: int| 0 <= i <= s.len() implies #[trigger] r[i] == x || s.contains(
            r[i],
        ) by {
            if i < s.len() {
                assert(s[i] == r[i]);
            }
        }
    }
}

/// Positions with different keys are sorted strictly.
proof fn lemma_sorted_strictly(keys: Seq<Seq<u8>>, s: Seq<int>)
    requires
        forall|i: int, j: int|
            0 <= i < j < s.len() ==> keys[#[trigger] s[i]] != keys[#[trigger] s[j]],
    ensures
        strictly_ordered(keys, sorted_positions(keys, s)),
    decreases s.len(),
{
    if s.len() > 0 {
        let t = s.drop_last();
        assert forall|i: int, j: int| 0 <= i < j < t.len() implies keys[#[trigger] t[i]]
            != keys[#[trigger] t[j]] by {
            assert(t[i] == s[i] && t[j] == s[j]);
        }
        lemma_sorted_strictly(keys, t);
        sorted_positions_contents(keys, t);
        let u = sorted_positions(keys, t);
        assert forall|i: int| 0 <= i < u.len() implies keys[#[trigger] u[i]] != keys[s.last()] by {
            assert(u.contains(u[i]));
            let k = t.index_of(u[i]);
            assert(s[k] == u[i]);
            assert(s[s.len() - 1] == s.last());
        }
        lemma_insert_ordered(keys, u, s.last());
    }
}

/// Strictly ordered positions that hold the same are the same.
proof fn lemma_order_unique(keys: Seq<Seq<u8>>, r: Seq<int>, s: Seq<int>)
    requires
        strictly_ordered(keys, r),
        strictly_ordered(keys, s),
        r.len() == s.len(),
        forall|y: int| #[trigger] r.contains(y) <==> s.contains(y),
    ensures
        r == s,
    decreases r.len(),
{
    if r.len() > 0 {
        let x = r.last();
        let y = s.last();
        assert(r[r.len() - 1] == x);
        assert(s[s.len() - 1] == y);
        assert(r.contains(x) && s.contains(y));
        assert(r.contains(y) && s.contains(x));
        let i = r.index_of(y);
        let j = s.index_of(x);
        assert(r[i] == y && s[j] == x);
        if x != y {
            assert(bytes_lt(keys[y], keys[x]));
            assert(bytes_lt(keys[x], keys[y]));
            bytes_lt_transitive(keys[x], keys[y], keys[x]);
            bytes_lt_irreflexive(keys[x]);
        }
        let c = r.drop_last();
        let d = s.drop_last();
        assert forall|z: int| #[trigger] c.contains(z) <==> d.contains(z) by {
            if c.contains(z) {
                let k = c.index_of(z);
                assert(r[k] == z);
                assert(bytes_lt(keys[r[k]], keys[r[r.len() - 1]]));
                if z == x {
                    bytes_lt_irreflexive(keys[x]);
                }
                assert(r.contains(z) && s.contains(z));
                let m = s.index_of(z);
                assert(d[m] == z);
            }
            if d.contains(z) {
                let k = d.index_of(z);
                assert(s[k] == z);
                assert(bytes_lt(keys[s[k]], keys[s[s.len() - 1]]));
                if z == x {
                    bytes_lt_irreflexive(keys[x]);
                }
                assert(s.contains(z) && r.contains(z));
                let m = r.index_of(z);
                assert(c[m] == z);
            }
        }
        assert forall|k: int, m: int| 0 <= k < m < c.len() implies bytes_lt(
            keys[#[trigger] c[k]],
            keys[#[trigger] c[m]],
        ) by {
            assert(c[k] == r[k] && c[m] == r[m]);
        }
        assert forall|k: int, m: int| 0 <= k < m < d.len() implies bytes_lt(
            keys[#[trigger] d[k]],
            keys[#[trigger] d[m]],
        ) by {
            assert(d[k] == s[k] && d[m] == s[m]);
        }
        lemma_order_unique(keys, c, d);
        assert(r =~= c.push(x));
        assert(s =~= d.push(y));
    } else {
        assert(r =~= s);
    }
}

/// Positions taken elsewhere.
pub open spec fn moved(p: Seq<int>, s: Seq<int>) -> Seq<int> {
    Seq::new(s.len(), |i: int| p[s[i]])
}

/// A moved list holds what the list holds, moved.
proof fn lemma_moved_contains(n: nat, p: Seq<int>, q: Seq<int>, s: Seq<int>, x: int)
    requires
        rearranges(n, p, q),
        0 <= x < n,
        forall|i: int| 0 <= i < s.len() ==> 0 <= #[trigger] s[i] < n,
    ensures
        moved(p, s).contains(p[x]) == s.contains(x),
        s.no_duplicates() && s.contains(x) ==> moved(p, s).no_duplicates() && moved(p, s).index_of(
            p[x],
        ) == s.index_of(x),
{
    let t = moved(p, s);
    if s.contains(x) {
        let i = s.index_of(x);
        assert(t[i] == p[x]);
    }
    if t.contains(p[x]) {
        let i = t.index_of(p[x]);
        assert(q[p[s[i]]] == s[i]);
        assert(q[p[x]] == x);
        assert(s[i] == x);
    }
    if s.no_duplicates() && s.contains(x) {
        assert forall|i: int, j: int| 0 <= i < t.len() && 0 <= j < t.len() && i != j implies t[i]
            != t[j] by {
            assert(q[p[s[i]]] == s[i]);
            assert(q[p[s[j]]] == s[j]);
        }
        let i = s.index_of(x);
        let j = t.index_of(p[x]);
        assert(t[i] == t[j]);
    }
}

/// Sorting by keys that are ordered the same way gives the same order.
proof fn lemma_sorted_alike(
    n: nat,
    p: Seq<int>,
    q: Seq<int>,
    ka: Seq<Seq<u8>>,
    kb: Seq<Seq<u8>>,
    s: Seq<int>,
    t: Seq<int>,
)
    requires
        rearranges(n, p, q),
        s.no_duplicates(),
        t.no_duplicates(),
        forall|i: int| 0 <= i < s.len() ==> 0 <= #[trigger] s[i] < n,
        forall|i: int| 0 <= i < t.len() ==> 0 <= #[trigger] t[i] < n,
        forall|x: int| 0 <= x < n ==> (#[trigger] s.contains(x) <==> t.contains(p[x])),
        forall|x: int, y: int|
            s.contains(x) && s.contains(y) && x != y ==> #[trigger] ka[x] != #[trigger] ka[y],
        forall|x: int, y: int|
            s.contains(x) && s.contains(y) && x != y ==> (bytes_lt(#[trigger] ka[x], #[trigger] ka[y])
                <==> bytes_lt(kb[p[x]], kb[p[y]])),
    ensures
        sorted_positions(kb, t) == moved(p, sorted_positions(ka, s)),
{
    let u = sorted_positions(ka, s);
    sorted_positions_contents(ka, s);
    assert forall|i: int, j: int| 0 <= i < j < s.len() implies ka[#[trigger] s[i]]
        != ka[#[trigger] s[j]] by {
        assert(s.contains(s[i]) && s.contains(s[j]));
    }
    lemma_sorted_strictly(ka, s);
    let v = moved(p, u);
    assert forall|i: int| 0 <= i < u.len() implies 0 <= #[trigger] u[i] < n by {
        assert(u.contains(u[i]));
        let k = s.index_of(u[i]);
        assert(s[k] == u[i]);
    }
    assert(strictly_ordered(kb, v)) by {
        assert forall|i: int, j: int| 0 <= i < j < v.len() implies bytes_lt(
            kb[#[trigger] v[i]],
            kb[#[trigger] v[j]],
        ) by {
            assert(u.contains(u[i]) && u.contains(u[j]));
            assert(u[i] != u[j]);
            assert(bytes_lt(ka[u[i]], ka[u[j]]));
        }
    }
    // The keys of the other side differ as well.
    assert forall|i: int, j: int| 0 <= i < j < t.len() implies kb[#[trigger] t[i]]
        != kb[#[trigger] t[j]] by {
        let x = q[t[i]];
        let y = q[t[j]];
        assert(p[x] == t[i] && p[y] == t[j]);
        assert(t.contains(t[i]) && t.contains(t[j]));
        assert(s.contains(x) && s.contains(y));
        assert(x != y);
        bytes_lt_total(ka[x], ka[y]);
        assert(ka[x] != ka[y]);
        bytes_lt_irreflexive(kb[t[i]]);
        assert(bytes_lt(ka[x], ka[y]) <==> bytes_lt(kb[p[x]], kb[p[y]]));
        assert(bytes_lt(ka[y], ka[x]) <==> bytes_lt(kb[p[y]], kb[p[x]]));
    }
    lemma_sorted_strictly(kb, t);
    sorted_positions_contents(kb, t);
    let w = sorted_positions(kb, t);
    assert forall|y: int| #[trigger] w.contains(y) <==> v.contains(y) by {
        if w.contains(y) {
            assert(t.contains(y));
            let k = t.index_of(y);
            assert(t[k] == y);
            let x = q[y];
            assert(p[x] == y);
            assert(s.contains(x));
            assert(u.contains(x));
            lemma_moved_contains(n, p, q, u, x);
        }
        if v.contains(y) {
            let k = v.index_of(y);
            let x = u[k];
            assert(p[x] == y);
            assert(u.contains(x));
            assert(s.contains(x));
            assert(t.contains(p[x]));
        }
    }
    assert(w.len() == v.len()) by {
        lemma_same_size(n, p, q, s, t);
    }
    lemma_order_unique(kb, w, v);
}

/// Lists without duplicates that correspond are equally long.
proof fn lemma_same_size(n: nat, p: Seq<int>, q: Seq<int>, s: Seq<int>, t: Seq<int>)
    requires
        rearranges(n, p, q),
        s.no_duplicates(),
        t.no_duplicates(),
        forall|i: int| 0 <= i < s.len() ==> 0 <= #[trigger] s[i] < n,
        forall|i: int| 0 <= i < t.len() ==> 0 <= #[trigger] t[i] < n,
        forall|x: int| 0 <= x < n ==> (#[trigger] s.contains(x) <==> t.contains(p[x])),
    ensures
        s.len() == t.len(),
{
    let v = moved(p, s);
    assert(v.no_duplicates()) by {
        assert forall|i: int, j: int| 0 <= i < v.len() && 0 <= j < v.len() && i != j implies v[i]
            != v[j] by {
            assert(q[p[s[i]]] == s[i]);
            assert(q[p[s[j]]] == s[j]);
        }
    }
    v.unique_seq_to_set();
    t.unique_seq_to_set();
    assert forall|y: int| v.to_set().contains(y) == t.to_set().contains(y) by {
        if v.contains(y) {
            let k = v.index_of(y);
            assert(s.contains(s[k]));
            assert(t.contains(p[s[k]]));
        }
        if t.contains(y) {
            let k = t.index_of(y);
            assert(t[k] == y);
            let x = q[y];
            assert(p[x] == y);
            assert(s.contains(x));
            let m = s.index_of(x);
            assert(v[m] == y);
        }
    }
    assert(v.to_set() =~= t.to_set());
}

// ── the order of a group ────────────────────────────────────────────────────

proof fn lemma_component_members(a: Seq<NodeView>, i: int)
    requires
        0 <= i < a.len(),
    ensures
        component(call_graph(a), i).no_duplicates(),
        component(call_graph(a), i).contains(i),
        forall|j: int| #[trigger]
            component(call_graph(a), i).contains(j) <==> 0 <= j < a.len() && same_component(
                call_graph(a),
                i,
                j,
            ),
        forall|k: int|
            0 <= k < component(call_graph(a), i).len() ==> 0 <= #[trigger] component(
                call_graph(a),
                i,
            )[k] < a.len(),
{
    let g = call_graph(a);
    let c = component(g, i);
    lemma_component_below(g, i, g.len() as int);
    reaches_itself(g, i);
    assert(c.contains(i));
    assert forall|k: int| 0 <= k < c.len() implies 0 <= #[trigger] c[k] < a.len() by {
        assert(c.contains(c[k]));
    }
}

/// Nodes of a component of several nodes, or of one that refers to itself, all
/// lie on a cycle.
proof fn lemma_members_on_cycle(a: Seq<NodeView>, i: int, j: int)
    requires
        on_cycle(call_graph(a), i),
        same_component(call_graph(a), i, j),
    ensures
        on_cycle(call_graph(a), j),
{
    let g = call_graph(a);
    if i != j {
        assert(same_component(g, j, i));
    }
}

proof fn lemma_place_refs_alike(
    a: Seq<NodeView>,
    b: Seq<NodeView>,
    p: Seq<int>,
    q: Seq<int>,
    ca: Seq<int>,
    cb: Seq<int>,
    order: Seq<int>,
    cs: Seq<ConstantView>,
    ds: Seq<ConstantView>,
)
    requires
        a.len() == b.len(),
        rearranges(a.len(), p, q),
        cs.len() == ds.len(),
        forall|k: int|
            0 <= k < cs.len() ==> #[trigger] constant_alike(a, b, p, cs[k], ds[k]),
        forall|x: int| 0 <= x < a.len() ==> (#[trigger] ca.contains(x) <==> cb.contains(p[x])),
        forall|k: int| 0 <= k < order.len() ==> 0 <= #[trigger] order[k] < a.len(),
    ensures
        place_refs(b, cb, moved(p, order), ds) == moved(p, place_refs(a, ca, order, cs)),
        forall|k: int|
            0 <= k < place_refs(a, ca, order, cs).len() ==> 0 <= #[trigger] place_refs(
                a,
                ca,
                order,
                cs,
            )[k] < a.len(),
    decreases cs.len(),
{
    if cs.len() > 0 {
        let n = cs.len() - 1;
        let cr = cs.drop_last();
        let dr = ds.drop_last();
        assert forall|k: int| 0 <= k < cr.len() implies #[trigger] constant_alike(
            a,
            b,
            p,
            cr[k],
            dr[k],
        ) by {
            assert(constant_alike(a, b, p, cs[k], ds[k]));
        }
        lemma_place_refs_alike(a, b, p, q, ca, cb, order, cr, dr);
        let before = place_refs(a, ca, order, cr);
        assert(constant_alike(a, b, p, cs[n], ds[n]));
        if let ConstantView::Function(x) = cs.last() {
            let y = ds.last()->Function_0;
            assert(ref_alike(a, b, p, x, y));
            lemma_local_at(a, x);
            if let Some(j) = local_at(a, x) {
                lemma_moved_contains(a.len(), p, q, before, j);
                assert(ca.contains(j) <==> cb.contains(p[j]));
                assert(moved(p, before.push(j)) =~= moved(p, before).push(p[j]));
            }
        }
    }
}

proof fn lemma_place_all_alike(
    a: Seq<NodeView>,
    b: Seq<NodeView>,
    p: Seq<int>,
    q: Seq<int>,
    ca: Seq<int>,
    cb: Seq<int>,
    order: Seq<int>,
    cursor: int,
)
    requires
        alike(a, b, p, q),
        forall|x: int| 0 <= x < a.len() ==> (#[trigger] ca.contains(x) <==> cb.contains(p[x])),
        forall|k: int| 0 <= k < order.len() ==> 0 <= #[trigger] order[k] < a.len(),
    ensures
        place_all(b, cb, moved(p, order), cursor) == moved(p, place_all(a, ca, order, cursor)),
        forall|k: int|
            0 <= k < place_all(a, ca, order, cursor).len() ==> 0 <= #[trigger] place_all(
                a,
                ca,
                order,
                cursor,
            )[k] < a.len(),
    decreases a.len() - cursor,
{
    if 0 <= cursor < order.len() && cursor < a.len() {
        let i = order[cursor];
        assert(moved(p, order)[cursor] == p[i]);
        assert(function_alike(a, b, p, a[i].func, b[p[i]].func));
        lemma_place_refs_alike(
            a,
            b,
            p,
            q,
            ca,
            cb,
            order,
            a[i].func.constants,
            b[p[i]].func.constants,
        );
        lemma_place_all_alike(
            a,
            b,
            p,
            q,
            ca,
            cb,
            place_refs(a, ca, order, a[i].func.constants),
            cursor + 1,
        );
    }
}

/// Whether names tell apart the members of a component.
proof fn lemma_names_apart(a: Seq<NodeView>, i: int, x: int, y: int)
    requires
        0 <= i < a.len(),
        !names_clash(a, order_of(a, i)),
        component(call_graph(a), i).contains(x),
        component(call_graph(a), i).contains(y),
        x != y,
        a[x].group_name is Some,
    ensures
        a[x].group_name != a[y].group_name,
{
    let comp = component(call_graph(a), i);
    let order = order_of(a, i);
    lemma_component_members(a, i);
    lemma_member_order(a, comp);
    assert(order.contains(x) && order.contains(y));
    let k = order.index_of(x);
    let m = order.index_of(y);
    assert(a[order[k]] == a[x] && a[order[m]] == a[y]);
    if a[x].group_name == a[y].group_name {
        if k < m {
            assert(a[order[k]].group_name == a[order[m]].group_name);
        } else {
            assert(a[order[m]].group_name == a[order[k]].group_name);
        }
    }
}

pub(crate) proof fn lemma_order_alike(a: Seq<NodeView>, b: Seq<NodeView>, p: Seq<int>, q: Seq<int>, i: int)
    requires
        a.len() <= usize::MAX,
        alike(a, b, p, q),
        temps_in_order(a, b, p) && temps_differ(a) || places_all(a),
        0 <= i < a.len(),
        on_cycle(call_graph(a), i),
        !names_clash(a, order_of(a, i)),
    ensures
        order_of(b, p[i]) == moved(p, order_of(a, i)),
{
    let n = a.len();
    let ca = component(call_graph(a), i);
    let cb = component(call_graph(b), p[i]);
    lemma_component_members(a, i);
    lemma_component_members(b, p[i]);
    assert forall|x: int| 0 <= x < n implies (#[trigger] ca.contains(x) <==> cb.contains(p[x])) by {
        lemma_component_alike(a, b, p, q, i, x);
    }
    // The names of the members are the same.
    assert forall|x: int| ca.contains(x) implies (#[trigger] a[x]).group_name
        == b[p[x]].group_name by {
        lemma_members_on_cycle(a, i, x);
    }
    let na = named_members(a, ca);
    let nb = named_members(b, cb);
    lemma_filter(ca, |x: int| a[x].group_name is Some);
    lemma_filter(cb, |x: int| b[x].group_name is Some);
    lemma_in_range(n, ca, na);
    lemma_in_range(n, cb, nb);
    assert forall|x: int| 0 <= x < n implies (#[trigger] na.contains(x) <==> nb.contains(p[x])) by {
        assert(ca.contains(x) <==> cb.contains(p[x]));
    }
    let ka = name_keys(a);
    let kb = name_keys(b);
    assert forall|x: int, y: int| na.contains(x) && na.contains(y) && x != y implies #[trigger] ka[x]
        != #[trigger] ka[y] by {
        lemma_names_apart(a, i, x, y);
        if ka[x] == ka[y] {
            crate::order::text_bytes_injective(a[x].group_name->0, a[y].group_name->0);
        }
    }
    assert forall|x: int, y: int| na.contains(x) && na.contains(y) && x != y implies (bytes_lt(
        #[trigger] ka[x],
        #[trigger] ka[y],
    ) <==> bytes_lt(kb[p[x]], kb[p[y]])) by {
        assert(ca.contains(x) && ca.contains(y));
        assert(ka[x] == kb[p[x]] && ka[y] == kb[p[y]]);
    }
    lemma_sorted_alike(n, p, q, ka, kb, na, nb);
    let first = sorted_positions(ka, na);
    sorted_positions_contents(ka, na);
    lemma_in_range_of(n, na, first);
    lemma_place_all_alike(a, b, p, q, ca, cb, first, 0);
    let pa = placed_members(a, ca);
    let pb = placed_members(b, cb);
    assert(pb == moved(p, pa));
    let la = ca.filter(|x: int| !pa.contains(x));
    let lb = cb.filter(|x: int| !pb.contains(x));
    lemma_filter(ca, |x: int| !pa.contains(x));
    lemma_filter(cb, |x: int| !pb.contains(x));
    lemma_in_range(n, ca, la);
    lemma_in_range(n, cb, lb);
    assert forall|x: int| 0 <= x < n implies (#[trigger] la.contains(x) <==> lb.contains(p[x])) by {
        assert(ca.contains(x) <==> cb.contains(p[x]));
        lemma_moved_contains(n, p, q, pa, x);
    }
    let ta = temp_keys(a);
    let tb = temp_keys(b);
    if temps_in_order(a, b, p) && temps_differ(a) {
        assert forall|x: int, y: int| la.contains(x) && la.contains(y) && x
            != y implies #[trigger] ta[x] != #[trigger] ta[y] by {
            assert(ca.contains(x) && ca.contains(y));
            assert(a[x].temp != a[y].temp);
        }
        assert forall|x: int, y: int| la.contains(x) && la.contains(y) && x != y implies (bytes_lt(
            #[trigger] ta[x],
            #[trigger] ta[y],
        ) <==> bytes_lt(tb[p[x]], tb[p[y]])) by {
            assert(ca.contains(x) && ca.contains(y));
            lemma_members_on_cycle(a, i, x);
            lemma_members_on_cycle(a, i, y);
            assert(bytes_lt(a[x].temp, a[y].temp) <==> bytes_lt(b[p[x]].temp, b[p[y]].temp));
        }
        lemma_sorted_alike(n, p, q, ta, tb, la, lb);
    } else {
        assert(la.len() == 0) by {
            if la.len() > 0 {
                let x = la[0];
                assert(la.contains(x));
                assert(ca.contains(x));
                assert(same_component(call_graph(a), i, x));
            }
        }
        assert(lb.len() == 0) by {
            lemma_same_size(n, p, q, la, lb);
        }
        assert(sorted_positions(ta, la) =~= seq![]);
        assert(sorted_positions(tb, lb) =~= seq![]);
    }
    assert(moved(p, pa + sorted_positions(ta, la)) =~= moved(p, pa) + moved(
        p,
        sorted_positions(ta, la),
    ));
}

/// Whether the nodes have different temporary hashes.
pub open spec fn temps_differ(a: Seq<NodeView>) -> bool {
    forall|i: int, j: int|
        0 <= i < a.len() && 0 <= j < a.len() && i != j ==> (#[trigger] a[i]).temp
            != (#[trigger] a[j]).temp
}

/// What a list holds only things of another list is in the range of that.
proof fn lemma_in_range(n: nat, all: Seq<int>, some: Seq<int>)
    requires
        forall|k: int| 0 <= k < all.len() ==> 0 <= #[trigger] all[k] < n,
        forall|x: int| #[trigger] some.contains(x) ==> all.contains(x),
    ensures
        forall|k: int| 0 <= k < some.len() ==> 0 <= #[trigger] some[k] < n,
{
    assert forall|k: int| 0 <= k < some.len() implies 0 <= #[trigger] some[k] < n by {
        assert(some.contains(some[k]));
        let m = all.index_of(some[k]);
        assert(all[m] == some[k]);
    }
}

proof fn lemma_in_range_of(n: nat, all: Seq<int>, some: Seq<int>)
    requires
        forall|k: int| 0 <= k < all.len() ==> 0 <= #[trigger] all[k] < n,
        forall|x: int| #[trigger] some.contains(x) <==> all.contains(x),
    ensures
        forall|k: int| 0 <= k < some.len() ==> 0 <= #[trigger] some[k] < n,
{
    lemma_in_range(n, all, some);
}

// ── final hashes ────────────────────────────────────────────────────────────

/// What is stored of a function is the same where what it refers to is.
proof fn lemma_stored_alike(
    a: Seq<NodeView>,
    b: Seq<NodeView>,
    p: Seq<int>,
    f: FunctionView,
    g: FunctionView,
    ma: Map<Seq<u8>, RefView>,
    mb: Map<Seq<u8>, RefView>,
)
    requires
        function_alike(a, b, p, f, g),
        forall|k: int|
            0 <= k < f.constants.len() && constant_ref(#[trigger] f.constants[k]) is Some
                ==> resolved(ma, constant_ref(f.constants[k])->0) == resolved(
                mb,
                constant_ref(g.constants[k])->0,
            ),
        forall|k: int|
            0 <= k < f.dependencies.len() ==> resolved(ma, #[trigger] f.dependencies[k])
                == resolved(mb, g.dependencies[k]),
    ensures
        stored_function(f, ma) == stored_function(g, mb),
{
    let x = stored_function(f, ma);
    let y = stored_function(g, mb);
    assert forall|k: int| 0 <= k < x.constants.len() implies x.constants[k] == y.constants[k] by {
        assert(constant_alike(a, b, p, f.constants[k], g.constants[k]));
        lemma_constant_ref_alike(a, b, p, f.constants[k], g.constants[k]);
        assert(constant_ref(f.constants[k]) is Some ==> resolved(
            ma,
            constant_ref(f.constants[k])->0,
        ) == resolved(mb, constant_ref(g.constants[k])->0));
    }
    assert(x.constants =~= y.constants);
    assert(x.dependencies =~= y.dependencies);
}

/// A reference is stored the same where the final hashes of the nodes that reach
/// fewer nodes are the same.
proof fn lemma_link_alike(
    a: Seq<NodeView>,
    b: Seq<NodeView>,
    p: Seq<int>,
    q: Seq<int>,
    ha: Seq<Seq<u8>>,
    hb: Seq<Seq<u8>>,
    i: int,
    m: int,
    order: Seq<int>,
    own: int,
    x: Seq<u8>,
    y: Seq<u8>,
)
    requires
        a.len() <= usize::MAX,
        alike(a, b, p, q),
        ha.len() == a.len(),
        hb.len() == b.len(),
        0 <= i < a.len(),
        same_component(call_graph(a), i, m),
        ref_alike(a, b, p, x, y),
        local_at(a, x) matches Some(j) ==> j == m || edge(call_graph(a), m, j),
        order.no_duplicates(),
        forall|k: int| 0 <= k < order.len() ==> 0 <= #[trigger] order[k] < a.len(),
        forall|j: int| #[trigger]
            same_component(call_graph(a), i, j) ==> order.contains(j) || j == own,
        own == -1 || own == m,
        own == m && local_at(a, x) == Some(m) ==> x == y,
        forall|j: int|
            0 <= j < a.len() && reach_count(call_graph(a), j) < reach_count(call_graph(a), i)
                ==> (#[trigger] ha[j]) == hb[p[j]],
    ensures
        resolved(link_map(a, known(ha), order, own), x) == resolved(
            link_map(
                b,
                known(hb),
                moved(p, order),
                if own == -1 {
                    -1
                } else {
                    p[own]
                },
            ),
            y,
        ),
{
    let g = call_graph(a);
    lemma_local_at(a, x);
    lemma_local_at(b, y);
    reached_in_range(g, i, m);
    if let Some(j) = local_at(a, x) {
        lemma_moved_contains(a.len(), p, q, order, j);
        if own == m && j != m {
            assert(q[p[j]] == j && q[p[m]] == m);
        }
        if j != m && !order.contains(j) {
            reaches_step(g, i, m, j);
            if reaches(g, j, i) {
                assert(same_component(g, i, j));
            } else {
                reached_reaches_fewer(g, i, j);
                assert(ha[j] == hb[p[j]]);
            }
        }
        if j == m {
            reaches_itself(g, m);
            assert(order.contains(j) || j == own);
        }
    }
}

/// What node lists that are alike give rise to is the same, where what comes
/// before has the same hashes.
pub(crate) proof fn lemma_objects_alike(
    a: Seq<NodeView>,
    b: Seq<NodeView>,
    p: Seq<int>,
    q: Seq<int>,
    ha: Seq<Seq<u8>>,
    hb: Seq<Seq<u8>>,
    i: int,
)
    requires
        a.len() <= usize::MAX,
        alike(a, b, p, q),
        temps_in_order(a, b, p) && temps_differ(a) || places_all(a),
        own_references_alike(a, b, p),
        deps_linked(a),
        forall|j: int|
            0 <= j < a.len() && on_cycle(call_graph(a), j) ==> !names_clash(
                a,
                #[trigger] order_of(a, j),
            ),
        ha.len() == a.len(),
        hb.len() == b.len(),
        0 <= i < a.len(),
        forall|j: int|
            0 <= j < a.len() && reach_count(call_graph(a), j) < reach_count(call_graph(a), i)
                ==> (#[trigger] ha[j]) == hb[p[j]],
    ensures
        on_cycle(call_graph(a), i) == on_cycle(call_graph(b), p[i]),
        on_cycle(call_graph(a), i) ==> order_of(b, p[i]) == moved(p, order_of(a, i)) && order_of(
            b,
            p[i],
        ).index_of(p[i]) == order_of(a, i).index_of(i) && group_object(
            a,
            known(ha),
            order_of(a, i),
        ) == group_object(b, known(hb), order_of(b, p[i])),
        !on_cycle(call_graph(a), i) ==> plain_object(a, known(ha), i) == plain_object(
            b,
            known(hb),
            p[i],
        ),
        node_hash(a, known(ha), i) == node_hash(b, known(hb), p[i]),
{
    let g = call_graph(a);
    lemma_component_members(a, i);
    reaches_itself(g, i);
    lemma_cycle_alike(a, b, p, q, i);
    if on_cycle(g, i) {
        let order = order_of(a, i);
        let comp = component(g, i);
        assert(!names_clash(a, order_of(a, i)));
        lemma_order_alike(a, b, p, q, i);
        lemma_member_order(a, comp);
        lemma_in_range(a.len(), comp, order);
        assert forall|j: int| #[trigger] same_component(g, i, j) implies order.contains(j) by {
            reached_in_range(g, i, j);
            assert(comp.contains(j));
        }
        let ga = group_object(a, known(ha), order)->Group_0;
        let gb = group_object(b, known(hb), moved(p, order))->Group_0;
        assert forall|k: int| 0 <= k < order.len() implies ga[k] == gb[k] by {
            let m = order[k];
            assert(order.contains(m));
            assert(comp.contains(m));
            lemma_members_on_cycle(a, i, m);
            assert(a[m].group_name == b[p[m]].group_name);
            assert(function_alike(a, b, p, a[m].func, b[p[m]].func));
            lemma_functions_stored_alike(a, b, p, q, ha, hb, i, m, order, -1);
        }
        assert(ga =~= gb);
        lemma_moved_contains(a.len(), p, q, order, i);
        assert(order.contains(i));
    } else {
        let none: Seq<int> = seq![];
        assert(moved(p, none) =~= none);
        assert forall|j: int| #[trigger] same_component(g, i, j) implies j == i by {}
        lemma_functions_stored_alike(a, b, p, q, ha, hb, i, i, none, i);
    }
}

proof fn lemma_hash_alike(
    a: Seq<NodeView>,
    b: Seq<NodeView>,
    p: Seq<int>,
    q: Seq<int>,
    ha: Seq<Seq<u8>>,
    hb: Seq<Seq<u8>>,
    i: int,
)
    requires
        a.len() <= usize::MAX,
        alike(a, b, p, q),
        temps_in_order(a, b, p) && temps_differ(a) || places_all(a),
        own_references_alike(a, b, p),
        deps_linked(a),
        forall|j: int|
            0 <= j < a.len() && on_cycle(call_graph(a), j) ==> !names_clash(
                a,
                #[trigger] order_of(a, j),
            ),
        hashes_ok(a, ha),
        hashes_ok(b, hb),
        0 <= i < a.len(),
    ensures
        ha[i] == hb[p[i]],
    decreases reach_count(call_graph(a), i),
{
    let g = call_graph(a);
    assert(hash_ok(a, ha, i));
    assert(hash_ok(b, hb, p[i]));
    assert forall|j: int|
        0 <= j < a.len() && reach_count(g, j) < reach_count(g, i) implies (#[trigger] ha[j])
        == hb[p[j]] by {
        lemma_hash_alike(a, b, p, q, ha, hb, j);
    }
    lemma_objects_alike(a, b, p, q, ha, hb, i);
}

proof fn lemma_functions_stored_alike(
    a: Seq<NodeView>,
    b: Seq<NodeView>,
    p: Seq<int>,
    q: Seq<int>,
    ha: Seq<Seq<u8>>,
    hb: Seq<Seq<u8>>,
    i: int,
    m: int,
    order: Seq<int>,
    own: int,
)
    requires
        a.len() <= usize::MAX,
        alike(a, b, p, q),
        own_references_alike(a, b, p),
        deps_linked(a),
        ha.len() == a.len(),
        hb.len() == b.len(),
        0 <= i < a.len(),
        same_component(call_graph(a), i, m),
        order.no_duplicates(),
        forall|k: int| 0 <= k < order.len() ==> 0 <= #[trigger] order[k] < a.len(),
        forall|j: int| #[trigger]
            same_component(call_graph(a), i, j) ==> order.contains(j) || j == own,
        own == -1 || own == m,
        own == m ==> !on_cycle(call_graph(a), m),
        forall|j: int|
            0 <= j < a.len() && reach_count(call_graph(a), j) < reach_count(call_graph(a), i)
                ==> (#[trigger] ha[j]) == hb[p[j]],
    ensures
        stored_function(a[m].func, link_map(a, known(ha), order, own)) == stored_function(
            b[p[m]].func,
            link_map(
                b,
                known(hb),
                moved(p, order),
                if own == -1 {
                    -1
                } else {
                    p[own]
                },
            ),
        ),
{
    let g = call_graph(a);
    let f = a[m].func;
    let h = b[p[m]].func;
    reached_in_range(g, i, m);
    assert(function_alike(a, b, p, f, h));
    let to = if own == -1 {
        -1
    } else {
        p[own]
    };
    let ma = link_map(a, known(ha), order, own);
    let mb = link_map(b, known(hb), moved(p, order), to);
    assert forall|k: int|
        0 <= k < f.constants.len() && constant_ref(#[trigger] f.constants[k]) is Some implies resolved(
        ma,
        constant_ref(f.constants[k])->0,
    ) == resolved(mb, constant_ref(h.constants[k])->0) by {
        assert(constant_alike(a, b, p, f.constants[k], h.constants[k]));
        lemma_constant_ref_alike(a, b, p, f.constants[k], h.constants[k]);
        let x = constant_ref(f.constants[k])->0;
        let y = constant_ref(h.constants[k])->0;
        if local_at(a, x) is Some {
            lemma_constant_edge(a, m, k);
        }
        lemma_link_alike(a, b, p, q, ha, hb, i, m, order, own, x, y);
    }
    assert forall|k: int| 0 <= k < f.dependencies.len() implies resolved(
        ma,
        #[trigger] f.dependencies[k],
    ) == resolved(mb, h.dependencies[k]) by {
        assert(ref_alike(a, b, p, f.dependencies[k], h.dependencies[k]));
        assert(dep_linked(a, m, f.dependencies[k]));
        lemma_link_alike(
            a,
            b,
            p,
            q,
            ha,
            hb,
            i,
            m,
            order,
            own,
            f.dependencies[k],
            h.dependencies[k],
        );
    }
    lemma_stored_alike(a, b, p, f, h, ma, mb);
}

/// Whether a function that is not recursive and yet lists itself among its
/// dependencies does so by the same hash.
pub open spec fn own_references_alike(a: Seq<NodeView>, b: Seq<NodeView>, p: Seq<int>) -> bool {
    forall|i: int, k: int|
        0 <= i < a.len() && 0 <= k < a[i].func.dependencies.len() && local_at(
            a,
            #[trigger] a[i].func.dependencies[k],
        ) == Some(i) && !on_cycle(call_graph(a), i) ==> a[i].func.dependencies[k]
            == b[p[i]].func.dependencies[k]
}

/// Final hashes depend neither on the order in which functions are declared, nor
/// on the names of functions that are not recursive, nor on the temporary hashes
/// that stand for functions while they are compiled, nor on where they came
/// from. Of the temporary hashes, at most their order makes a difference, and
/// that only in a recursive group with members that are neither named nor
/// referred to by those that are.
pub proof fn hashes_forget_order_and_names(
    a: Seq<NodeView>,
    b: Seq<NodeView>,
    p: Seq<int>,
    q: Seq<int>,
    ha: Seq<Seq<u8>>,
    hb: Seq<Seq<u8>>,
)
    requires
        a.len() <= usize::MAX,
        alike(a, b, p, q),
        temps_in_order(a, b, p) && temps_differ(a) || places_all(a),
        own_references_alike(a, b, p),
        deps_linked(a),
        forall|j: int|
            0 <= j < a.len() && on_cycle(call_graph(a), j) ==> !names_clash(
                a,
                #[trigger] order_of(a, j),
            ),
        hashes_ok(a, ha),
        hashes_ok(b, hb),
    ensures
        forall|i: int| 0 <= i < a.len() ==> #[trigger] ha[i] == hb[p[i]],
{
    assert forall|i: int| 0 <= i < a.len() implies #[trigger] ha[i] == hb[p[i]] by {
        lemma_hash_alike(a, b, p, q, ha, hb, i);
    }
}

} // verus!
