//! Content-addressed hash finalization.
//!
//! Functions are compiled against temporary hashes. Finalization groups them
//! into objects and derives each function's final hash from the bytes of its
//! object: a function that is not recursive becomes a plain object; each
//! component of mutually recursive functions becomes one group object, in which
//! members refer to each other by position.

use vstd::prelude::*;
use vstd::utf8::encode_utf8;

use crate::bytecode::{
    constant_ref, constant_views, digest_views, AbilityMethodRef, CompiledFunction, Constant,
    ConstantView, FunctionView, MethodView,
};
use crate::compiler::error::{CompileError, ErrorView, KindView};
use crate::compiler::graph::{
    adjacency, component_reaches_alike, count_is_monotone, count_row, count_set, edge, on_cycle,
    reach_count, reach_rows, reach_table, reached_in_range, reached_reaches_fewer, reaches,
    reaches_itself, reaches_step, reaches_transitive, same_component,
};
use crate::compiler::module_output::{
    function_map, name_map, object_map, parent_map, CompiledModule, MigrationRecord,
};
use crate::digest::{blake3_hash, Digest};
use crate::fqn::{KeyView, NameKey, NameTable};
use crate::object::{
    function_from_compiled, member_hash, member_hash_of, object_hash, resolved, storable,
    stored_function, stored_value, subst_view, value_object, GroupMember, MemberView, ObjectRef,
    ObjectView, RedirectTarget, RedirectView, RefView, StoredObject,
};
use crate::order::text_same;
use crate::ordmap::OrdMap;
use crate::sorting::{
    key_views, positions, sort_positions, sorted_positions, sorted_positions_contents,
};
use crate::text::{copy_opt_text, opt_text, owned, push_text};
use crate::wire::{contents, Wire};

verus! {

broadcast use {vstd::string::group_string_axioms, vstd::array::group_array_axioms};

/// A function that waits for its final hash.
pub struct Node {
    /// The temporary hash.
    pub temp: Digest,
    /// The name it is linked by; lambdas have none.
    pub name: Option<String>,
    /// The name that orders it in a recursive group; lambdas have none.
    pub group_name: Option<String>,
    /// The function.
    pub func: CompiledFunction,
    /// Whether it is the entry point.
    pub is_main: bool,
    /// For a lambda, the name of the function it stands in.
    pub lambda_parent: Option<String>,
}

/// What a [`Node`] says.
pub struct NodeView {
    /// The temporary hash.
    pub temp: Seq<u8>,
    /// The name it is linked by.
    pub name: Option<Seq<char>>,
    /// The name that orders it in a recursive group.
    pub group_name: Option<Seq<char>>,
    /// The function.
    pub func: FunctionView,
    /// Whether it is the entry point.
    pub is_main: bool,
    /// For a lambda, the name of the function it stands in.
    pub lambda_parent: Option<Seq<char>>,
}

impl View for Node {
    type V = NodeView;

    open spec fn view(&self) -> NodeView {
        NodeView {
            temp: self.temp@,
            name: opt_text(self.name),
            group_name: opt_text(self.group_name),
            func: self.func@,
            is_main: self.is_main,
            lambda_parent: opt_text(self.lambda_parent),
        }
    }
}

/// What some nodes say.
pub open spec fn node_views(nodes: Seq<Node>) -> Seq<NodeView> {
    Seq::new(nodes.len(), |i: int| nodes[i]@)
}

// ── the call graph ──────────────────────────────────────────────────────────

/// The node that a hash is the temporary hash of; of two nodes the later.
pub open spec fn local_at(nodes: Seq<NodeView>, h: Seq<u8>) -> Option<int>
    decreases nodes.len(),
{
    if nodes.len() == 0 {
        None
    } else if nodes.last().temp == h {
        Some(nodes.len() - 1)
    } else {
        local_at(nodes.drop_last(), h)
    }
}

/// The nodes that constants refer to as functions, in order.
pub open spec fn ref_nodes(nodes: Seq<NodeView>, cs: Seq<ConstantView>) -> Seq<usize>
    decreases cs.len(),
{
    if cs.len() == 0 {
        seq![]
    } else {
        let before = ref_nodes(nodes, cs.drop_last());
        match constant_ref(cs.last()) {
            Some(h) => match local_at(nodes, h) {
                Some(j) => before.push(j as usize),
                None => before,
            },
            None => before,
        }
    }
}

/// The call graph: an edge for every constant that refers to a node.
pub open spec fn call_graph(nodes: Seq<NodeView>) -> Seq<Seq<usize>> {
    Seq::new(nodes.len(), |i: int| ref_nodes(nodes, nodes[i].func.constants))
}

pub(crate) proof fn lemma_local_at(nodes: Seq<NodeView>, h: Seq<u8>)
    ensures
        local_at(nodes, h) matches Some(j) ==> 0 <= j < nodes.len() && nodes[j].temp == h,
        local_at(nodes, h) is None ==> forall|j: int|
            0 <= j < nodes.len() ==> (#[trigger] nodes[j]).temp != h,
    decreases nodes.len(),
{
    if nodes.len() > 0 {
        lemma_local_at(nodes.drop_last(), h);
        if local_at(nodes, h) is None {
            assert forall|j: int| 0 <= j < nodes.len() implies (#[trigger] nodes[j]).temp != h by {
                if j < nodes.len() - 1 {
                    assert(nodes.drop_last()[j].temp != h);
                }
            }
        }
    }
}

proof fn lemma_ref_nodes_range(nodes: Seq<NodeView>, cs: Seq<ConstantView>)
    requires
        nodes.len() <= usize::MAX,
    ensures
        forall|k: int|
            0 <= k < ref_nodes(nodes, cs).len() ==> (#[trigger] ref_nodes(nodes, cs)[k])
                < nodes.len(),
    decreases cs.len(),
{
    if cs.len() > 0 {
        let before = ref_nodes(nodes, cs.drop_last());
        lemma_ref_nodes_range(nodes, cs.drop_last());
        if let Some(h) = constant_ref(cs.last()) {
            lemma_local_at(nodes, h);
        }
        assert forall|k: int| 0 <= k < ref_nodes(nodes, cs).len() implies (#[trigger] ref_nodes(
            nodes,
            cs,
        )[k]) < nodes.len() by {
            if k < before.len() {
                assert(ref_nodes(nodes, cs)[k] == before[k]);
            }
        }
    }
}

/// A constant that refers to a node gives an edge to it.
proof fn lemma_ref_edge(nodes: Seq<NodeView>, cs: Seq<ConstantView>, k: int)
    requires
        nodes.len() <= usize::MAX,
        0 <= k < cs.len(),
        constant_ref(cs[k]) is Some,
        local_at(nodes, constant_ref(cs[k])->0) is Some,
    ensures
        exists|e: int|
            0 <= e < ref_nodes(nodes, cs).len() && (#[trigger] ref_nodes(nodes, cs)[e])
                == local_at(nodes, constant_ref(cs[k])->0)->0,
    decreases cs.len(),
{
    let j = local_at(nodes, constant_ref(cs[k])->0)->0;
    lemma_local_at(nodes, constant_ref(cs[k])->0);
    let all = ref_nodes(nodes, cs);
    let before = ref_nodes(nodes, cs.drop_last());
    if k == cs.len() - 1 {
        assert(all[all.len() - 1] == j as usize);
    } else {
        lemma_ref_edge(nodes, cs.drop_last(), k);
        let e = choose|e: int|
            0 <= e < before.len() && (#[trigger] before[e]) == local_at(
                nodes,
                constant_ref(cs.drop_last()[k])->0,
            )->0;
        assert(all[e] == before[e]);
    }
}

// ── what nodes link to ──────────────────────────────────────────────────────

/// The final hashes that are known, all of them.
pub open spec fn known(h: Seq<Seq<u8>>) -> Seq<Option<Seq<u8>>> {
    Seq::new(h.len(), |i: int| Some(h[i]))
}

/// How references to nodes are stored: a member of the group `order` by its
/// position, a node whose final hash is known by that hash. The node `own`,
/// which is stored by itself, is left out.
pub open spec fn link_map(
    nodes: Seq<NodeView>,
    fin: Seq<Option<Seq<u8>>>,
    order: Seq<int>,
    own: int,
) -> Map<Seq<u8>, RefView> {
    Map::new(
        |x: Seq<u8>|
            {
                &&& local_at(nodes, x) is Some
                &&& local_at(nodes, x)->0 != own
                &&& order.contains(local_at(nodes, x)->0) || fin[local_at(nodes, x)->0] is Some
            },
        |x: Seq<u8>|
            {
                let j = local_at(nodes, x)->0;
                if order.contains(j) {
                    RefView::Internal(order.index_of(j) as u32)
                } else {
                    RefView::External(fin[j]->0)
                }
            },
    )
}

/// The object of a node that is not recursive.
pub open spec fn plain_object(
    nodes: Seq<NodeView>,
    fin: Seq<Option<Seq<u8>>>,
    i: int,
) -> ObjectView {
    ObjectView::Plain(stored_function(nodes[i].func, link_map(nodes, fin, seq![], i)))
}

/// The object of a recursive group whose members stand in the given order.
pub open spec fn group_object(
    nodes: Seq<NodeView>,
    fin: Seq<Option<Seq<u8>>>,
    order: Seq<int>,
) -> ObjectView {
    ObjectView::Group(
        Seq::new(
            order.len(),
            |k: int|
                MemberView {
                    name: nodes[order[k]].group_name,
                    function: stored_function(
                        nodes[order[k]].func,
                        link_map(nodes, fin, order, -1),
                    ),
                },
        ),
    )
}

// ── the order of a group's members ──────────────────────────────────────────

/// The nodes below `n` that reach a node and are reached by it, in increasing
/// order.
pub open spec fn component_below(g: Seq<Seq<usize>>, i: int, n: int) -> Seq<int>
    decreases n,
{
    if n <= 0 {
        seq![]
    } else if same_component(g, i, n - 1) {
        component_below(g, i, n - 1).push(n - 1)
    } else {
        component_below(g, i, n - 1)
    }
}

/// The component of a node, in increasing order.
pub open spec fn component(g: Seq<Seq<usize>>, i: int) -> Seq<int> {
    component_below(g, i, g.len() as int)
}

/// The bytes that order named members.
pub open spec fn name_keys(nodes: Seq<NodeView>) -> Seq<Seq<u8>> {
    Seq::new(
        nodes.len(),
        |i: int|
            match nodes[i].group_name {
                Some(n) => encode_utf8(n),
                None => seq![],
            },
    )
}

/// The temporary hashes.
pub open spec fn temp_keys(nodes: Seq<NodeView>) -> Seq<Seq<u8>> {
    Seq::new(nodes.len(), |i: int| nodes[i].temp)
}

/// `order` with the members that function references among constants refer to,
/// and that it lacks, put behind it in order.
pub open spec fn place_refs(
    nodes: Seq<NodeView>,
    comp: Seq<int>,
    order: Seq<int>,
    cs: Seq<ConstantView>,
) -> Seq<int>
    decreases cs.len(),
{
    if cs.len() == 0 {
        order
    } else {
        let before = place_refs(nodes, comp, order, cs.drop_last());
        match cs.last() {
            ConstantView::Function(h) => match local_at(nodes, h) {
                Some(j) => if comp.contains(j) && !before.contains(j) {
                    before.push(j)
                } else {
                    before
                },
                None => before,
            },
            _ => before,
        }
    }
}

/// `order` with the members that its nodes from `cursor` on refer to put
/// behind it, and what those refer to, and so on.
pub open spec fn place_all(
    nodes: Seq<NodeView>,
    comp: Seq<int>,
    order: Seq<int>,
    cursor: int,
) -> Seq<int>
    decreases nodes.len() - cursor,
{
    if 0 <= cursor < order.len() && cursor < nodes.len() {
        place_all(
            nodes,
            comp,
            place_refs(nodes, comp, order, nodes[order[cursor]].func.constants),
            cursor + 1,
        )
    } else {
        order
    }
}

/// The members of a component that have a name.
pub open spec fn named_members(nodes: Seq<NodeView>, comp: Seq<int>) -> Seq<int> {
    comp.filter(|i: int| nodes[i].group_name is Some)
}

/// The canonical order of a recursive group: named members by name, then
/// lambdas as they are first referred to, then whatever is left by temporary
/// hash.
pub open spec fn member_order(nodes: Seq<NodeView>, comp: Seq<int>) -> Seq<int> {
    let placed = place_all(
        nodes,
        comp,
        sorted_positions(name_keys(nodes), named_members(nodes, comp)),
        0,
    );
    placed + sorted_positions(temp_keys(nodes), comp.filter(|i: int| !placed.contains(i)))
}

/// The canonical order of the group that a node belongs to.
pub open spec fn order_of(nodes: Seq<NodeView>, i: int) -> Seq<int> {
    member_order(nodes, component(call_graph(nodes), i))
}

/// Whether two members of a group have the same name.
pub open spec fn names_clash(nodes: Seq<NodeView>, order: Seq<int>) -> bool {
    exists|a: int, b: int|
        0 <= a < b < order.len() && (#[trigger] nodes[order[a]]).group_name is Some
            && nodes[order[a]].group_name == (#[trigger] nodes[order[b]]).group_name
}

/// The text of the error for two members of a group with the same name.
pub open spec fn clash_text(name: Seq<char>) -> Seq<char> {
    "two default implementations of ability `"@ + name
        + "` are mutually recursive within one group, so their content identity is ambiguous; break the recursion so at most one of the ability's methods is part of each recursive cycle"@
}

// ── final hashes ────────────────────────────────────────────────────────────

/// The hash that a node's object gives it: that of its plain object, or that of
/// its place in its group.
pub open spec fn node_hash(nodes: Seq<NodeView>, fin: Seq<Option<Seq<u8>>>, i: int) -> Seq<u8> {
    if on_cycle(call_graph(nodes), i) {
        let order = order_of(nodes, i);
        member_hash_of(
            object_hash(group_object(nodes, fin, order)),
            order.index_of(i) as u32,
            order.len() as u32,
        )
    } else {
        object_hash(plain_object(nodes, fin, i))
    }
}

/// Whether the final hash of a node is the one that its object gives it.
pub open spec fn hash_ok(nodes: Seq<NodeView>, h: Seq<Seq<u8>>, i: int) -> bool {
    h[i] == node_hash(nodes, known(h), i)
}

/// Whether every node has the final hash that its object gives it.
pub open spec fn hashes_ok(nodes: Seq<NodeView>, h: Seq<Seq<u8>>) -> bool {
    h.len() == nodes.len() && forall|i: int| 0 <= i < nodes.len() ==> #[trigger] hash_ok(nodes, h, i)
}

/// Whether an object is one that a node gives rise to, under a key: the plain
/// object of a node under the node's hash; the group of a node under the
/// group's hash; and, for a group of several members, a redirect to the group
/// under a member's hash.
pub open spec fn gives_object(
    nodes: Seq<NodeView>,
    fin: Seq<Option<Seq<u8>>>,
    i: int,
    key: Seq<u8>,
    o: ObjectView,
) -> bool {
    if on_cycle(call_graph(nodes), i) {
        let order = order_of(nodes, i);
        let group = group_object(nodes, fin, order);
        ||| key == object_hash(group) && o == group
        ||| order.len() > 1 && key == node_hash(nodes, fin, i) && o == ObjectView::Redirect(
            RedirectView { group: object_hash(group), index: order.index_of(i) as u32 },
        )
    } else {
        key == node_hash(nodes, fin, i) && o == plain_object(nodes, fin, i)
    }
}

/// Whether a map has the objects of a node.
pub open spec fn has_objects(
    nodes: Seq<NodeView>,
    fin: Seq<Option<Seq<u8>>>,
    i: int,
    keys: Set<Seq<u8>>,
) -> bool {
    if on_cycle(call_graph(nodes), i) {
        &&& keys.contains(object_hash(group_object(nodes, fin, order_of(nodes, i))))
        &&& order_of(nodes, i).len() > 1 ==> keys.contains(node_hash(nodes, fin, i))
    } else {
        keys.contains(node_hash(nodes, fin, i))
    }
}

/// Whether a map holds the objects of all nodes, and nothing else.
pub open spec fn objects_ok(
    nodes: Seq<NodeView>,
    h: Seq<Seq<u8>>,
    objects: Map<Seq<u8>, ObjectView>,
) -> bool {
    &&& forall|key: Seq<u8>| #[trigger]
        objects.contains_key(key) ==> exists|i: int|
            0 <= i < nodes.len() && #[trigger] gives_object(nodes, known(h), i, key, objects[key])
    &&& forall|i: int|
        0 <= i < nodes.len() ==> #[trigger] has_objects(nodes, known(h), i, objects.dom())
}

/// What a hash becomes: a temporary hash the final one, any other stays.
pub open spec fn relink_hash(nodes: Seq<NodeView>, h: Seq<Seq<u8>>, x: Seq<u8>) -> Seq<u8> {
    match local_at(nodes, x) {
        Some(j) => h[j],
        None => x,
    }
}

/// What a constant becomes.
pub open spec fn relink_constant(
    nodes: Seq<NodeView>,
    h: Seq<Seq<u8>>,
    c: ConstantView,
) -> ConstantView {
    match c {
        ConstantView::Function(x) => ConstantView::Function(relink_hash(nodes, h, x)),
        ConstantView::Method(m) => ConstantView::Method(
            MethodView {
                impl_fn: match m.impl_fn {
                    Some(x) => Some(relink_hash(nodes, h, x)),
                    None => None,
                },
                ..m
            },
        ),
        _ => c,
    }
}

/// A node's function with final hashes in place of temporary ones.
pub open spec fn relinked(nodes: Seq<NodeView>, h: Seq<Seq<u8>>, i: int) -> FunctionView {
    let f = nodes[i].func;
    FunctionView {
        hash: h[i],
        bytecode: f.bytecode,
        constants: Seq::new(
            f.constants.len(),
            |k: int| relink_constant(nodes, h, f.constants[k]),
        ),
        local_count: f.local_count,
        param_count: f.param_count,
        dependencies: Seq::new(
            f.dependencies.len(),
            |k: int| relink_hash(nodes, h, f.dependencies[k]),
        ),
        debug: f.debug,
    }
}

/// The functions of the first `k` nodes by their final hashes.
pub open spec fn final_functions(nodes: Seq<NodeView>, h: Seq<Seq<u8>>, k: int) -> Map<
    Seq<u8>,
    FunctionView,
>
    decreases k,
{
    if k <= 0 {
        Map::empty()
    } else {
        final_functions(nodes, h, k - 1).insert(h[k - 1], relinked(nodes, h, k - 1))
    }
}

/// The names of the first `k` nodes.
pub open spec fn final_names(nodes: Seq<NodeView>, h: Seq<Seq<u8>>, k: int) -> Map<
    Seq<char>,
    Seq<u8>,
>
    decreases k,
{
    if k <= 0 {
        Map::empty()
    } else {
        let before = final_names(nodes, h, k - 1);
        match (nodes[k - 1].lambda_parent, nodes[k - 1].name) {
            (None, Some(name)) => before.insert(name, h[k - 1]),
            _ => before,
        }
    }
}

/// The parents of the lambdas among the first `k` nodes.
pub open spec fn final_parents(nodes: Seq<NodeView>, h: Seq<Seq<u8>>, k: int) -> Map<
    Seq<u8>,
    Seq<char>,
>
    decreases k,
{
    if k <= 0 {
        Map::empty()
    } else {
        let before = final_parents(nodes, h, k - 1);
        match nodes[k - 1].lambda_parent {
            Some(parent) => before.insert(h[k - 1], parent),
            None => before,
        }
    }
}

/// The entry point among the first `k` nodes: the last named one that is
/// marked.
pub open spec fn final_entry(nodes: Seq<NodeView>, h: Seq<Seq<u8>>, k: int) -> Option<Seq<u8>>
    decreases k,
{
    if k <= 0 {
        None
    } else if nodes[k - 1].lambda_parent is None && nodes[k - 1].name is Some
        && nodes[k - 1].is_main {
        Some(h[k - 1])
    } else {
        final_entry(nodes, h, k - 1)
    }
}

/// Whether a module is what nodes with the given final hashes make up.
pub open spec fn finalizes(nodes: Seq<NodeView>, h: Seq<Seq<u8>>, m: CompiledModule) -> bool {
    let n = nodes.len() as int;
    &&& hashes_ok(nodes, h)
    &&& objects_ok(nodes, h, object_map(m.objects@))
    &&& function_map(m.functions@) == final_functions(nodes, h, n)
    &&& name_map(m.function_names@) == final_names(nodes, h, n)
    &&& parent_map(m.lambda_parents@) == final_parents(nodes, h, n)
    &&& (match m.entry_point {
        Some(e) => Some(e@),
        None => None,
    }) == final_entry(nodes, h, n)
    &&& m.const_names@ == Map::<Seq<char>, Digest>::empty()
    &&& m.signatures@ == Map::<Seq<char>, String>::empty()
    &&& m.migrations@ == Seq::<MigrationRecord>::empty()
}

/// The first node of a node's component.
pub open spec fn first_of(g: Seq<Seq<usize>>, i: int) -> int {
    component(g, i)[0]
}

/// Whether a node's component is finalized before another's: it reaches fewer
/// nodes, or as many and begins before the other.
pub open spec fn comes_before(g: Seq<Seq<usize>>, j: int, i: int) -> bool {
    reach_count(g, j) < reach_count(g, i) || (reach_count(g, j) == reach_count(g, i) && first_of(
        g,
        j,
    ) < first_of(g, i))
}

/// Whether a dependency on another node is on one of the same component, or of
/// one that is finalized before.
pub open spec fn dep_ordered(nodes: Seq<NodeView>, i: int, d: Seq<u8>) -> bool {
    local_at(nodes, d) matches Some(j) ==> j == i || same_component(call_graph(nodes), i, j)
        || comes_before(call_graph(nodes), j, i)
}

/// Whether every dependency of a node is in order.
pub open spec fn node_ordered(nodes: Seq<NodeView>, i: int) -> bool {
    forall|k: int|
        0 <= k < nodes[i].func.dependencies.len() ==> dep_ordered(
            nodes,
            i,
            #[trigger] nodes[i].func.dependencies[k],
        )
}

/// Whether every dependency of every node is in order.
pub open spec fn deps_ordered(nodes: Seq<NodeView>) -> bool {
    forall|i: int| 0 <= i < nodes.len() ==> #[trigger] node_ordered(nodes, i)
}

/// Whether every dependency of a node on another is among the references of
/// its constants.
pub open spec fn deps_linked(nodes: Seq<NodeView>) -> bool {
    forall|i: int, k: int|
        0 <= i < nodes.len() && 0 <= k < nodes[i].func.dependencies.len() ==> dep_linked(
            nodes,
            i,
            #[trigger] nodes[i].func.dependencies[k],
        )
}

/// Whether a dependency on another node is on an edge of the call graph.
pub open spec fn dep_linked(nodes: Seq<NodeView>, i: int, d: Seq<u8>) -> bool {
    local_at(nodes, d) matches Some(j) ==> j == i || edge(call_graph(nodes), i, j)
}

/// Whether a node can be stored: its constants can, and where it is recursive no
/// two members of its group have one name.
pub open spec fn can_store(nodes: Seq<NodeView>, i: int) -> bool {
    storable(nodes[i].func) && (on_cycle(call_graph(nodes), i) ==> !names_clash(
        nodes,
        order_of(nodes, i),
    ))
}

/// Whether every node can be stored.
pub open spec fn can_store_all(nodes: Seq<NodeView>) -> bool {
    forall|i: int| 0 <= i < nodes.len() ==> #[trigger] can_store(nodes, i)
}

/// Whether finalization gives a module: every node can be stored, and every
/// dependency is in order.
pub open spec fn finalizable(nodes: Seq<NodeView>) -> bool {
    can_store_all(nodes) && deps_ordered(nodes)
}

/// The nodes that are stored together with a node, in order: those of its group
/// where it is recursive, else the node alone.
pub open spec fn stored_with(nodes: Seq<NodeView>, i: int) -> Seq<int> {
    if on_cycle(call_graph(nodes), i) {
        order_of(nodes, i)
    } else {
        seq![i]
    }
}

/// Whether a member of a group has the name of one before it.
pub open spec fn repeats_name(nodes: Seq<NodeView>, order: Seq<int>, k: int) -> bool {
    nodes[order[k]].group_name is Some && exists|a: int|
        0 <= a < k && (#[trigger] nodes[order[a]]).group_name == nodes[order[k]].group_name
}

/// What storing a node, with what is stored together with it, fails with: the
/// first name of its group that repeats one before it, else a dependency that is
/// out of order, else a constant that cannot be stored.
pub open spec fn component_fault(nodes: Seq<NodeView>, i: int, e: ErrorView) -> bool {
    let order = stored_with(nodes, i);
    &&& e.span == (0u32, 0u32)
    &&& if exists|k: int| 0 <= k < order.len() && #[trigger] repeats_name(nodes, order, k) {
        exists|k: int|
            0 <= k < order.len() && #[trigger] repeats_name(nodes, order, k) && (forall|q: int|
                0 <= q < k ==> !#[trigger] repeats_name(nodes, order, q)) && e.kind
                == (KindView::Unsupported {
                feature: clash_text(nodes[order[k]].group_name->0),
            })
    } else if exists|k: int| 0 <= k < order.len() && !node_ordered(nodes, #[trigger] order[k]) {
        e.kind == (KindView::Internal { message: "dependency finalized out of order"@ })
    } else {
        (exists|k: int| 0 <= k < order.len() && !storable(nodes[#[trigger] order[k]].func))
            && e.kind == (KindView::Internal {
            message: "constant pool value cannot be content-addressed"@,
        })
    }
}

/// Why finalization failed: for the fault of the first component, in the order in
/// which components are finalized, that has one.
pub open spec fn finalize_fault(nodes: Seq<NodeView>, e: ErrorView) -> bool {
    exists|i: int|
        0 <= i < nodes.len() && #[trigger] component_fault(nodes, i, e) && forall|j: int|
            0 <= j < nodes.len() && comes_before(call_graph(nodes), j, i) ==> #[trigger] can_store(
                nodes,
                j,
            ) && node_ordered(nodes, j)
}

/// A name that repeats one before it is a clash, and the other way round.
proof fn lemma_repeats(nodes: Seq<NodeView>, order: Seq<int>)
    ensures
        names_clash(nodes, order) <==> exists|k: int|
            0 <= k < order.len() && #[trigger] repeats_name(nodes, order, k),
{
    if names_clash(nodes, order) {
        let (a, b) = choose|a: int, b: int|
            0 <= a < b < order.len() && (#[trigger] nodes[order[a]]).group_name is Some
                && nodes[order[a]].group_name == (#[trigger] nodes[order[b]]).group_name;
        assert(repeats_name(nodes, order, b));
    }
    if exists|k: int| 0 <= k < order.len() && #[trigger] repeats_name(nodes, order, k) {
        let b = choose|k: int| 0 <= k < order.len() && #[trigger] repeats_name(nodes, order, k);
        let a = choose|a: int|
            0 <= a < b && (#[trigger] nodes[order[a]]).group_name == nodes[order[b]].group_name;
        assert(nodes[order[a]].group_name is Some);
    }
}

/// What is stored together is the component.
proof fn lemma_stored_with(nodes: Seq<NodeView>, i: int)
    requires
        nodes.len() <= usize::MAX,
        0 <= i < nodes.len(),
    ensures
        forall|j: int| #[trigger]
            stored_with(nodes, i).contains(j) <==> 0 <= j < nodes.len() && same_component(
                call_graph(nodes),
                i,
                j,
            ),
        !on_cycle(call_graph(nodes), i) ==> !names_clash(nodes, stored_with(nodes, i)),
        forall|j: int|
            same_component(call_graph(nodes), i, j) && on_cycle(call_graph(nodes), i)
                ==> #[trigger] on_cycle(call_graph(nodes), j) && order_of(nodes, j) == order_of(
                nodes,
                i,
            ),
{
    let g = call_graph(nodes);
    lemma_component_below(g, i, g.len() as int);
    reaches_itself(g, i);
    lemma_cycle(g, i);
    if on_cycle(g, i) {
        lemma_member_order(nodes, component(g, i));
        assert forall|j: int|
            same_component(g, i, j) && on_cycle(g, i) implies #[trigger] on_cycle(g, j) && order_of(
            nodes,
            j,
        ) == order_of(nodes, i) by {
            reached_in_range(g, i, j);
            lemma_order_shared(nodes, i, j);
        }
    } else {
        let one = seq![i];
        assert(one[0] == i);
        assert forall|j: int| #[trigger] one.contains(j) <==> 0 <= j < nodes.len()
            && same_component(g, i, j) by {
            if one.contains(j) {
                assert(j == i);
            }
        }
    }
}

/// A component with a fault has a node that cannot be stored or is out of order.
proof fn lemma_fault_shows(nodes: Seq<NodeView>, i: int, e: ErrorView) -> (j: int)
    requires
        nodes.len() <= usize::MAX,
        0 <= i < nodes.len(),
        component_fault(nodes, i, e),
    ensures
        0 <= j < nodes.len(),
        same_component(call_graph(nodes), i, j),
        !(can_store(nodes, j) && node_ordered(nodes, j)),
{
    let order = stored_with(nodes, i);
    lemma_stored_with(nodes, i);
    lemma_repeats(nodes, order);
    reaches_itself(call_graph(nodes), i);
    if exists|k: int| 0 <= k < order.len() && #[trigger] repeats_name(nodes, order, k) {
        i
    } else if exists|k: int| 0 <= k < order.len() && !node_ordered(nodes, #[trigger] order[k]) {
        let k = choose|k: int| 0 <= k < order.len() && !node_ordered(nodes, #[trigger] order[k]);
        assert(order.contains(order[k]));
        order[k]
    } else {
        let k = choose|k: int|
            0 <= k < order.len() && !storable(nodes[#[trigger] order[k]].func);
        assert(order.contains(order[k]));
        order[k]
    }
}

/// Finalization has no fault where it owes a module.
pub proof fn fault_means_no_module(nodes: Seq<NodeView>, e: ErrorView)
    requires
        nodes.len() <= usize::MAX,
        finalize_fault(nodes, e),
    ensures
        !finalizable(nodes),
{
    let i = choose|i: int|
        0 <= i < nodes.len() && #[trigger] component_fault(nodes, i, e) && forall|j: int|
            0 <= j < nodes.len() && comes_before(call_graph(nodes), j, i) ==> #[trigger] can_store(
                nodes,
                j,
            ) && node_ordered(nodes, j);
    let j = lemma_fault_shows(nodes, i, e);
    assert(!can_store(nodes, j) || !node_ordered(nodes, j));
}

/// Finalization fails in one way.
pub proof fn the_fault_is_unique(nodes: Seq<NodeView>, e: ErrorView, f: ErrorView)
    requires
        nodes.len() <= usize::MAX,
        finalize_fault(nodes, e),
        finalize_fault(nodes, f),
    ensures
        e == f,
{
    let g = call_graph(nodes);
    let a = choose|i: int|
        0 <= i < nodes.len() && #[trigger] component_fault(nodes, i, e) && forall|j: int|
            0 <= j < nodes.len() && comes_before(g, j, i) ==> #[trigger] can_store(nodes, j)
                && node_ordered(nodes, j);
    let b = choose|i: int|
        0 <= i < nodes.len() && #[trigger] component_fault(nodes, i, f) && forall|j: int|
            0 <= j < nodes.len() && comes_before(g, j, i) ==> #[trigger] can_store(nodes, j)
                && node_ordered(nodes, j);
    let x = lemma_fault_shows(nodes, a, e);
    let y = lemma_fault_shows(nodes, b, f);
    component_reaches_alike(g, a, x);
    component_reaches_alike(g, b, y);
    lemma_first_of(g, a);
    lemma_first_of(g, b);
    assert(!comes_before(g, x, b));
    assert(!comes_before(g, y, a));
    assert(first_of(g, a) == first_of(g, b));
    let c = first_of(g, a);
    assert(same_component(g, a, b)) by {
        reaches_transitive(g, a, c, b);
        reaches_transitive(g, b, c, a);
    }
    lemma_stored_with(nodes, a);
    lemma_stored_with(nodes, b);
    if on_cycle(g, a) {
        assert(on_cycle(g, b));
    } else {
        assert(stored_with(nodes, a).contains(b));
        assert(stored_with(nodes, a)[0] == a);
        assert(a == b);
    }
    let order = stored_with(nodes, a);
    assert(order == stored_with(nodes, b));
    if exists|k: int| 0 <= k < order.len() && #[trigger] repeats_name(nodes, order, k) {
        let k = choose|k: int|
            0 <= k < order.len() && #[trigger] repeats_name(nodes, order, k) && (forall|q: int|
                0 <= q < k ==> !#[trigger] repeats_name(nodes, order, q)) && e.kind
                == (KindView::Unsupported {
                feature: clash_text(nodes[order[k]].group_name->0),
            });
        let l = choose|k: int|
            0 <= k < order.len() && #[trigger] repeats_name(nodes, order, k) && (forall|q: int|
                0 <= q < k ==> !#[trigger] repeats_name(nodes, order, q)) && f.kind
                == (KindView::Unsupported {
                feature: clash_text(nodes[order[k]].group_name->0),
            });
        assert(k == l);
    }
}

/// The fault of a component before which everything is final is that of
/// finalization.
proof fn lemma_first_fault(
    nodes: Seq<NodeView>,
    fin: Seq<Option<Seq<u8>>>,
    objects: Map<Seq<u8>, ObjectView>,
    i: int,
    e: ErrorView,
)
    requires
        0 <= i < nodes.len(),
        progress(nodes, fin, objects),
        before_final(nodes, fin, i),
        component_fault(nodes, i, e),
    ensures
        finalize_fault(nodes, e),
{
    assert forall|j: int|
        0 <= j < nodes.len() && comes_before(call_graph(nodes), j, i) implies #[trigger] can_store(
        nodes,
        j,
    ) && node_ordered(nodes, j) by {
        assert(fin[j] is Some);
    }
}

// ── components ──────────────────────────────────────────────────────────────

pub(crate) proof fn lemma_component_below(g: Seq<Seq<usize>>, i: int, n: int)
    requires
        0 <= n <= g.len(),
    ensures
        forall|j: int| #[trigger]
            component_below(g, i, n).contains(j) <==> 0 <= j < n && same_component(g, i, j),
        component_below(g, i, n).no_duplicates(),
    decreases n,
{
    if n > 0 {
        let before = component_below(g, i, n - 1);
        lemma_component_below(g, i, n - 1);
        let all = component_below(g, i, n);
        if same_component(g, i, n - 1) {
            assert forall|j: int| #[trigger] all.contains(j) <==> 0 <= j < n && same_component(
                g,
                i,
                j,
            ) by {
                lemma_push_contains(before, n - 1, j);
                assert(before.contains(j) <==> 0 <= j < n - 1 && same_component(g, i, j));
            }
            assert(!before.contains(n - 1));
            lemma_push_distinct(before, n - 1);
        } else {
            assert forall|j: int| #[trigger] all.contains(j) <==> 0 <= j < n && same_component(
                g,
                i,
                j,
            ) by {
                assert(before.contains(j) <==> 0 <= j < n - 1 && same_component(g, i, j));
            }
        }
    } else {
        assert forall|j: int| !#[trigger] component_below(g, i, n).contains(j) by {}
    }
}

/// The first node of a component is in it, and before every other; it is the
/// same for all of them.
proof fn lemma_first_of(g: Seq<Seq<usize>>, i: int)
    requires
        0 <= i < g.len(),
    ensures
        0 <= first_of(g, i) < g.len(),
        same_component(g, i, first_of(g, i)),
        forall|j: int| #[trigger] same_component(g, i, j) ==> first_of(g, i) <= j && first_of(g, j)
            == first_of(g, i),
{
    let c = component(g, i);
    lemma_component_below(g, i, g.len() as int);
    reaches_itself(g, i);
    assert(c.contains(i));
    assert(c.contains(c[0]));
    lemma_component_increases(g, i, g.len() as int);
    assert forall|j: int| #[trigger] same_component(g, i, j) implies first_of(g, i) <= j && first_of(
        g,
        j,
    ) == first_of(g, i) by {
        reached_in_range(g, i, j);
        assert(c.contains(j));
        let d = component(g, j);
        lemma_component_below(g, j, g.len() as int);
        lemma_component_increases(g, j, g.len() as int);
        reaches_itself(g, j);
        assert(d.contains(j));
        assert(d.contains(d[0]));
        assert(same_component(g, j, c[0])) by {
            reaches_transitive(g, j, i, c[0]);
            reaches_transitive(g, c[0], i, j);
        }
        assert(same_component(g, i, d[0])) by {
            reaches_transitive(g, i, j, d[0]);
            reaches_transitive(g, d[0], j, i);
        }
        assert(d.contains(c[0]));
        assert(c.contains(d[0]));
    }
}

proof fn lemma_component_increases(g: Seq<Seq<usize>>, i: int, n: int)
    requires
        0 <= n <= g.len(),
    ensures
        forall|j: int| #[trigger]
            component_below(g, i, n).contains(j) ==> component_below(g, i, n)[0] <= j,
    decreases n,
{
    if n > 0 {
        let before = component_below(g, i, n - 1);
        lemma_component_increases(g, i, n - 1);
        lemma_component_below(g, i, n - 1);
        let now = component_below(g, i, n);
        assert forall|j: int| #[trigger] now.contains(j) implies now[0] <= j by {
            let k = now.index_of(j);
            if k < before.len() {
                assert(before[k] == j);
                assert(before.contains(j));
            } else if before.len() > 0 {
                assert(before.contains(before[0]));
            }
        }
    }
}

/// Dependencies that constants refer to as well are in order.
pub proof fn linked_dependencies_are_in_order(nodes: Seq<NodeView>)
    requires
        deps_linked(nodes),
    ensures
        deps_ordered(nodes),
{
    let g = call_graph(nodes);
    assert forall|i: int| 0 <= i < nodes.len() implies #[trigger] node_ordered(nodes, i) by {
        let ds = nodes[i].func.dependencies;
        assert forall|k: int| 0 <= k < ds.len() implies dep_ordered(nodes, i, #[trigger] ds[k]) by {
            assert(dep_linked(nodes, i, nodes[i].func.dependencies[k]));
            if let Some(j) = local_at(nodes, ds[k]) {
                if j != i {
                    reaches_itself(g, i);
                    reaches_step(g, i, i, j);
                    if !reaches(g, j, i) {
                        reached_reaches_fewer(g, i, j);
                    }
                }
            }
        }
    }
}

pub(crate) proof fn lemma_push_contains(s: Seq<int>, x: int, y: int)
    ensures
        s.push(x).contains(y) <==> s.contains(y) || y == x,
{
    if s.contains(y) {
        let k = choose|k: int| 0 <= k < s.len() && s[k] == y;
        assert(s.push(x)[k] == y);
    }
    assert(s.push(x)[s.len() as int] == x);
    if s.push(x).contains(y) && y != x {
        let k = choose|k: int| 0 <= k < s.push(x).len() && s.push(x)[k] == y;
        assert(s[k] == y);
    }
}

proof fn lemma_push_distinct(s: Seq<int>, x: int)
    requires
        s.no_duplicates(),
        !s.contains(x),
    ensures
        s.push(x).no_duplicates(),
{
    assert forall|a: int, b: int|
        0 <= a < s.push(x).len() && 0 <= b < s.push(x).len() && a != b implies s.push(x)[a]
        != s.push(x)[b] by {
        if a == s.len() {
            assert(s[b] != x) by {
                assert(s.contains(s[b]));
            }
        } else if b == s.len() {
            assert(s[a] != x) by {
                assert(s.contains(s[a]));
            }
        }
    }
}

/// Nodes of one component have the same component.
proof fn lemma_same_component_below(g: Seq<Seq<usize>>, i: int, j: int, n: int)
    requires
        0 <= n <= g.len(),
        same_component(g, i, j),
    ensures
        component_below(g, i, n) == component_below(g, j, n),
    decreases n,
{
    if n > 0 {
        lemma_same_component_below(g, i, j, n - 1);
        let m = n - 1;
        if same_component(g, i, m) {
            reaches_transitive(g, j, i, m);
            reaches_transitive(g, m, i, j);
        }
        if same_component(g, j, m) {
            reaches_transitive(g, i, j, m);
            reaches_transitive(g, m, j, i);
        }
    }
}

/// Nodes of one component have the same order, and lie on a cycle together.
pub(crate) proof fn lemma_order_shared(nodes: Seq<NodeView>, i: int, j: int)
    requires
        same_component(call_graph(nodes), i, j),
    ensures
        order_of(nodes, i) == order_of(nodes, j),
        on_cycle(call_graph(nodes), i) == on_cycle(call_graph(nodes), j),
{
    let g = call_graph(nodes);
    lemma_same_component_below(g, i, j, g.len() as int);
    if i != j {
        assert(same_component(g, j, i));
    }
}

/// A node lies on a cycle when it has an edge to itself, or its component has
/// another node.
proof fn lemma_cycle(g: Seq<Seq<usize>>, i: int)
    requires
        0 <= i < g.len(),
    ensures
        on_cycle(g, i) <==> edge(g, i, i) || component(g, i).len() > 1,
        component(g, i).contains(i),
{
    let c = component(g, i);
    lemma_component_below(g, i, g.len() as int);
    reaches_itself(g, i);
    assert(c.contains(i));
    let k = c.index_of(i);
    if c.len() > 1 {
        let other = if k == 0 {
            c[1]
        } else {
            c[0]
        };
        assert(c.contains(other));
        assert(other != i);
        assert(same_component(g, i, other));
    }
    if exists|j: int| j != i && #[trigger] same_component(g, i, j) {
        let j = choose|j: int| j != i && #[trigger] same_component(g, i, j);
        reached_in_range(g, i, j);
        assert(c.contains(j));
        let m = c.index_of(j);
        assert(m != k);
    }
}

// ── the order, proved a permutation ─────────────────────────────────────────

pub(crate) proof fn lemma_place_refs(
    nodes: Seq<NodeView>,
    comp: Seq<int>,
    order: Seq<int>,
    cs: Seq<ConstantView>,
)
    requires
        order.no_duplicates(),
        forall|j: int| #[trigger] order.contains(j) ==> comp.contains(j),
    ensures
        place_refs(nodes, comp, order, cs).no_duplicates(),
        place_refs(nodes, comp, order, cs).len() >= order.len(),
        forall|j: int| #[trigger]
            place_refs(nodes, comp, order, cs).contains(j) ==> comp.contains(j),
    decreases cs.len(),
{
    if cs.len() > 0 {
        lemma_place_refs(nodes, comp, order, cs.drop_last());
        let before = place_refs(nodes, comp, order, cs.drop_last());
        if let ConstantView::Function(h) = cs.last() {
            if let Some(j) = local_at(nodes, h) {
                if comp.contains(j) && !before.contains(j) {
                    lemma_push_distinct(before, j);
                    assert forall|y: int| #[trigger] before.push(j).contains(y) implies comp.contains(
                        y,
                    ) by {
                        lemma_push_contains(before, j, y);
                    }
                }
            }
        }
    }
}

pub(crate) proof fn lemma_place_all(nodes: Seq<NodeView>, comp: Seq<int>, order: Seq<int>, cursor: int)
    requires
        order.no_duplicates(),
        forall|j: int| #[trigger] order.contains(j) ==> comp.contains(j),
    ensures
        place_all(nodes, comp, order, cursor).no_duplicates(),
        forall|j: int| #[trigger]
            place_all(nodes, comp, order, cursor).contains(j) ==> comp.contains(j),
    decreases nodes.len() - cursor,
{
    if 0 <= cursor < order.len() && cursor < nodes.len() {
        lemma_place_refs(nodes, comp, order, nodes[order[cursor]].func.constants);
        lemma_place_all(
            nodes,
            comp,
            place_refs(nodes, comp, order, nodes[order[cursor]].func.constants),
            cursor + 1,
        );
    }
}

pub(crate) proof fn lemma_filter(s: Seq<int>, f: spec_fn(int) -> bool)
    ensures
        forall|j: int| #[trigger] s.filter(f).contains(j) <==> s.contains(j) && f(j),
        s.no_duplicates() ==> s.filter(f).no_duplicates(),
    decreases s.len(),
{
    reveal(Seq::filter);
    if s.len() == 0 {
        assert forall|j: int| !#[trigger] s.filter(f).contains(j) by {}
    } else {
        let t = s.drop_last();
        lemma_filter(t, f);
        assert(s =~= t.push(s.last()));
        assert forall|j: int| #[trigger] s.filter(f).contains(j) <==> s.contains(j) && f(j) by {
            lemma_push_contains(t, s.last(), j);
            lemma_push_contains(t.filter(f), s.last(), j);
            assert(t.filter(f).contains(j) <==> t.contains(j) && f(j));
        }
        if s.no_duplicates() {
            assert(t.no_duplicates());
            if f(s.last()) {
                assert(!t.contains(s.last())) by {
                    if t.contains(s.last()) {
                        let k = t.index_of(s.last());
                        assert(s[k] == s[s.len() - 1]);
                    }
                }
                assert(!t.filter(f).contains(s.last()));
                lemma_push_distinct(t.filter(f), s.last());
            }
        }
    }
}

/// Two sequences without duplicates that hold the same values are equally long.
proof fn lemma_same_length(a: Seq<int>, b: Seq<int>)
    requires
        a.no_duplicates(),
        b.no_duplicates(),
        forall|j: int| #[trigger] a.contains(j) <==> b.contains(j),
    ensures
        a.len() == b.len(),
{
    a.unique_seq_to_set();
    b.unique_seq_to_set();
    assert(a.to_set() =~= b.to_set());
}

/// The canonical order of a component is a permutation of it.
pub(crate) proof fn lemma_member_order(nodes: Seq<NodeView>, comp: Seq<int>)
    requires
        comp.no_duplicates(),
    ensures
        member_order(nodes, comp).no_duplicates(),
        member_order(nodes, comp).len() == comp.len(),
        forall|j: int| #[trigger] member_order(nodes, comp).contains(j) <==> comp.contains(j),
{
    let named = named_members(nodes, comp);
    lemma_filter(comp, |i: int| nodes[i].group_name is Some);
    sorted_positions_contents(name_keys(nodes), named);
    let first = sorted_positions(name_keys(nodes), named);
    assert forall|j: int| #[trigger] first.contains(j) implies comp.contains(j) by {
        assert(named.contains(j));
    }
    lemma_place_all(nodes, comp, first, 0);
    let placed = place_all(nodes, comp, first, 0);
    let left = comp.filter(|i: int| !placed.contains(i));
    lemma_filter(comp, |i: int| !placed.contains(i));
    sorted_positions_contents(temp_keys(nodes), left);
    let rest = sorted_positions(temp_keys(nodes), left);
    let all = placed + rest;
    assert(all == member_order(nodes, comp));
    assert forall|j: int| #[trigger] all.contains(j) <==> comp.contains(j) by {
        if placed.contains(j) {
            let k = placed.index_of(j);
            assert(all[k] == j);
        } else if comp.contains(j) {
            assert(left.contains(j));
            assert(rest.contains(j));
            let k = rest.index_of(j);
            assert(all[placed.len() + k] == j);
        }
        if all.contains(j) {
            let k = all.index_of(j);
            if k < placed.len() {
                assert(placed.contains(placed[k]));
            } else {
                assert(rest.contains(rest[k - placed.len()]));
                assert(left.contains(j));
            }
        }
    }
    assert forall|a: int, b: int|
        0 <= a < all.len() && 0 <= b < all.len() && a != b implies all[a] != all[b] by {
        if a < placed.len() && b >= placed.len() {
            assert(placed.contains(placed[a]));
            assert(rest.contains(rest[b - placed.len()]));
            assert(left.contains(all[b]));
        } else if b < placed.len() && a >= placed.len() {
            assert(placed.contains(placed[b]));
            assert(rest.contains(rest[a - placed.len()]));
            assert(left.contains(all[a]));
        }
    }
    lemma_same_length(all, comp);
}

// ── stability ───────────────────────────────────────────────────────────────

/// Whether what a hash refers to is stored the same however many more final
/// hashes become known.
pub open spec fn link_known(
    nodes: Seq<NodeView>,
    fin: Seq<Option<Seq<u8>>>,
    order: Seq<int>,
    own: int,
    x: Seq<u8>,
) -> bool {
    local_at(nodes, x) matches Some(j) ==> order.contains(j) || j == own || fin[j] is Some
}

/// Whether that holds of all that a function refers to.
pub open spec fn links_known(
    nodes: Seq<NodeView>,
    fin: Seq<Option<Seq<u8>>>,
    order: Seq<int>,
    own: int,
    f: FunctionView,
) -> bool {
    &&& forall|k: int|
        0 <= k < f.constants.len() ==> ((constant_ref(#[trigger] f.constants[k]) matches Some(x)
            ==> link_known(nodes, fin, order, own, x)))
    &&& forall|k: int|
        0 <= k < f.dependencies.len() ==> link_known(
            nodes,
            fin,
            order,
            own,
            #[trigger] f.dependencies[k],
        )
}

/// Whether more final hashes are known, and none has changed.
pub open spec fn extends(a: Seq<Option<Seq<u8>>>, b: Seq<Option<Seq<u8>>>) -> bool {
    a.len() == b.len() && forall|j: int| 0 <= j < a.len() && (#[trigger] a[j]) is Some ==> b[j]
        == a[j]
}

proof fn lemma_resolved_stable(
    nodes: Seq<NodeView>,
    a: Seq<Option<Seq<u8>>>,
    b: Seq<Option<Seq<u8>>>,
    order: Seq<int>,
    own: int,
    x: Seq<u8>,
)
    requires
        a.len() == nodes.len(),
        extends(a, b),
        link_known(nodes, a, order, own, x),
    ensures
        resolved(link_map(nodes, a, order, own), x) == resolved(link_map(nodes, b, order, own), x),
{
    lemma_local_at(nodes, x);
    let ma = link_map(nodes, a, order, own);
    let mb = link_map(nodes, b, order, own);
    if local_at(nodes, x) is Some && local_at(nodes, x)->0 != own {
        let j = local_at(nodes, x)->0;
        assert(order.contains(j) || a[j] is Some);
        assert(ma.contains_key(x));
        assert(mb.contains_key(x));
    } else {
        assert(!ma.contains_key(x));
        assert(!mb.contains_key(x));
    }
}

proof fn lemma_stored_stable(
    nodes: Seq<NodeView>,
    a: Seq<Option<Seq<u8>>>,
    b: Seq<Option<Seq<u8>>>,
    order: Seq<int>,
    own: int,
    f: FunctionView,
)
    requires
        a.len() == nodes.len(),
        extends(a, b),
        links_known(nodes, a, order, own, f),
    ensures
        stored_function(f, link_map(nodes, a, order, own)) == stored_function(
            f,
            link_map(nodes, b, order, own),
        ),
        links_known(nodes, b, order, own, f),
{
    let ma = link_map(nodes, a, order, own);
    let mb = link_map(nodes, b, order, own);
    let fa = stored_function(f, ma);
    let fb = stored_function(f, mb);
    assert forall|k: int| 0 <= k < f.constants.len() implies fa.constants[k] == fb.constants[k] by {
        let c = f.constants[k];
        if let Some(x) = constant_ref(c) {
            lemma_resolved_stable(nodes, a, b, order, own, x);
        }
    }
    assert(fa.constants =~= fb.constants);
    assert forall|k: int| 0 <= k < f.dependencies.len() implies fa.dependencies[k]
        == fb.dependencies[k] by {
        lemma_resolved_stable(nodes, a, b, order, own, f.dependencies[k]);
    }
    assert(fa.dependencies =~= fb.dependencies);
    assert forall|x: Seq<u8>| link_known(nodes, a, order, own, x) implies link_known(
        nodes,
        b,
        order,
        own,
        x,
    ) by {
        lemma_local_at(nodes, x);
    }
}

/// Whether a node has its final hash, and all that its object refers to is
/// known.
pub open spec fn settled(nodes: Seq<NodeView>, fin: Seq<Option<Seq<u8>>>, i: int) -> bool {
    &&& fin[i] == Some(node_hash(nodes, fin, i))
    &&& object_known(nodes, fin, i)
}

/// Whether all that a node's object refers to is known.
pub open spec fn object_known(nodes: Seq<NodeView>, fin: Seq<Option<Seq<u8>>>, i: int) -> bool {
    if on_cycle(call_graph(nodes), i) {
        let order = order_of(nodes, i);
        forall|k: int|
            0 <= k < order.len() ==> links_known(
                nodes,
                fin,
                order,
                -1,
                (#[trigger] nodes[order[k]]).func,
            )
    } else {
        links_known(nodes, fin, seq![], i, nodes[i].func)
    }
}

proof fn lemma_object_stable(
    nodes: Seq<NodeView>,
    a: Seq<Option<Seq<u8>>>,
    b: Seq<Option<Seq<u8>>>,
    i: int,
)
    requires
        a.len() == nodes.len(),
        extends(a, b),
        object_known(nodes, a, i),
        0 <= i < nodes.len(),
    ensures
        object_known(nodes, b, i),
        node_hash(nodes, a, i) == node_hash(nodes, b, i),
        forall|key: Seq<u8>, o: ObjectView|
            gives_object(nodes, a, i, key, o) == #[trigger] gives_object(nodes, b, i, key, o),
        forall|keys: Set<Seq<u8>>|
            has_objects(nodes, a, i, keys) == #[trigger] has_objects(nodes, b, i, keys),
{
    if on_cycle(call_graph(nodes), i) {
        let order = order_of(nodes, i);
        let ga = group_object(nodes, a, order)->Group_0;
        let gb = group_object(nodes, b, order)->Group_0;
        assert forall|k: int| 0 <= k < order.len() implies ga[k] == gb[k] && links_known(
            nodes,
            b,
            order,
            -1,
            (#[trigger] nodes[order[k]]).func,
        ) by {
            lemma_stored_stable(nodes, a, b, order, -1, nodes[order[k]].func);
        }
        assert(ga =~= gb) by {
            assert forall|k: int| 0 <= k < order.len() implies ga[k] == gb[k] by {
                let f = nodes[order[k]].func;
                lemma_stored_stable(nodes, a, b, order, -1, f);
            }
        }
    } else {
        lemma_stored_stable(nodes, a, b, seq![], i, nodes[i].func);
    }
}

// ── the steps ───────────────────────────────────────────────────────────────

/// The nodes by their temporary hash.
fn local_index(nodes: &Vec<Node>) -> (r: OrdMap<Digest, usize>)
    ensures
        forall|h: Seq<u8>| #[trigger]
            r@.contains_key(h) <==> local_at(node_views(nodes@), h) is Some,
        forall|h: Seq<u8>| #[trigger]
            r@.contains_key(h) ==> r@[h] == local_at(node_views(nodes@), h)->0,
{
    let ghost views = node_views(nodes@);
    let mut local: OrdMap<Digest, usize> = OrdMap::new();
    let mut i: usize = 0;
    while i < nodes.len()
        invariant
            i <= nodes@.len(),
            views == node_views(nodes@),
            forall|h: Seq<u8>| #[trigger]
                local@.contains_key(h) <==> local_at(views.take(i as int), h) is Some,
            forall|h: Seq<u8>| #[trigger]
                local@.contains_key(h) ==> local@[h] == local_at(views.take(i as int), h)->0,
        decreases nodes@.len() - i,
    {
        let ghost was = local@;
        local.insert(nodes[i].temp, i);
        assert(views.take(i + 1).drop_last() =~= views.take(i as int));
        assert(views.take(i + 1).last() == nodes@[i as int]@);
        assert forall|h: Seq<u8>| #[trigger] local@.contains_key(h) <==> local_at(
            views.take(i + 1),
            h,
        ) is Some by {
            assert(was.contains_key(h) <==> local_at(views.take(i as int), h) is Some);
        }
        assert forall|h: Seq<u8>| #[trigger] local@.contains_key(h) implies local@[h] == local_at(
            views.take(i + 1),
            h,
        )->0 by {
            assert(was.contains_key(h) <==> local_at(views.take(i as int), h) is Some);
        }
        i = i + 1;
    }
    assert(views.take(nodes@.len() as int) =~= views);
    local
}

/// Whether a map gives the nodes by their temporary hash.
pub open spec fn is_local_index(nodes: Seq<NodeView>, m: Map<Seq<u8>, usize>) -> bool {
    forall|h: Seq<u8>|
        {
            &&& #[trigger] m.contains_key(h) <==> local_at(nodes, h) is Some
            &&& m.contains_key(h) ==> m[h] == local_at(nodes, h)->0
        }
}

/// The call graph.
fn build_graph(nodes: &Vec<Node>, local: &OrdMap<Digest, usize>) -> (r: Vec<Vec<usize>>)
    requires
        is_local_index(node_views(nodes@), local@),
    ensures
        adjacency(r@) == call_graph(node_views(nodes@)),
        forall|i: int, k: int|
            0 <= i < r@.len() && 0 <= k < r@[i]@.len() ==> #[trigger] r@[i]@[k] < r@.len(),
{
    let ghost views = node_views(nodes@);
    let ghost g = call_graph(views);
    let mut graph: Vec<Vec<usize>> = Vec::new();
    let mut i: usize = 0;
    while i < nodes.len()
        invariant
            i <= nodes@.len(),
            views == node_views(nodes@),
            g == call_graph(views),
            is_local_index(views, local@),
            adjacency(graph@) == g.take(i as int),
            graph@.len() == i,
        decreases nodes@.len() - i,
    {
        let constants = &nodes[i].func.constants;
        let ghost cs = constant_views(constants@);
        assert(cs == views[i as int].func.constants);
        let mut edges: Vec<usize> = Vec::new();
        let mut k: usize = 0;
        assert(cs.take(0) =~= seq![]);
        while k < constants.len()
            invariant
                k <= constants@.len(),
                cs == constant_views(constants@),
                views == node_views(nodes@),
                is_local_index(views, local@),
                edges@ == ref_nodes(views, cs.take(k as int)),
            decreases constants@.len() - k,
        {
            assert(cs.take(k + 1).drop_last() =~= cs.take(k as int));
            assert(cs.take(k + 1).last() == constants@[k as int]@);
            let target: Option<Digest> = match &constants[k] {
                Constant::Function(h) => Some(*h),
                Constant::Method(m) => m.impl_fn,
                _ => None,
            };
            if let Some(h) = target {
                if let Some(j) = local.get(&h) {
                    edges.push(*j);
                }
            }
            k = k + 1;
        }
        assert(cs.take(constants@.len() as int) =~= cs);
        graph.push(edges);
        i = i + 1;
        assert(adjacency(graph@) =~= g.take(i as int));
    }
    assert(g.take(nodes@.len() as int) =~= g);
    proof {
        assert forall|a: int, k: int| 0 <= a < graph@.len() && 0 <= k < graph@[a]@.len() implies
        #[trigger] graph@[a]@[k] < graph@.len() by {
            lemma_ref_nodes_range(views, views[a].func.constants);
            assert(g[a] == graph@[a]@);
            assert(ref_nodes(views, views[a].func.constants)[k] < views.len());
        }
    }
    graph
}

/// The component of a node.
fn component_of(rows: &Vec<Vec<bool>>, i: usize, g: Ghost<Seq<Seq<usize>>>) -> (r: Vec<usize>)
    requires
        reach_table(g@, rows@),
        i < rows@.len(),
    ensures
        positions(r@) == component(g@, i as int),
        forall|k: int| 0 <= k < r@.len() ==> (#[trigger] r@[k]) < rows@.len(),
{
    let mut out: Vec<usize> = Vec::new();
    let mut j: usize = 0;
    assert(positions(out@) =~= seq![]);
    while j < rows.len()
        invariant
            j <= rows@.len(),
            i < rows@.len(),
            reach_table(g@, rows@),
            positions(out@) == component_below(g@, i as int, j as int),
            forall|k: int| 0 <= k < out@.len() ==> (#[trigger] out@[k]) < rows@.len(),
        decreases rows@.len() - j,
    {
        assert(rows@[i as int]@.len() == g@.len());
        assert(rows@[j as int]@.len() == g@.len());
        if rows[i][j] && rows[j][i] {
            let ghost was = out@;
            out.push(j);
            assert(positions(out@) =~= positions(was).push(j as int));
        }
        j = j + 1;
    }
    out
}

/// The position of a value.
fn position_of(s: &Vec<usize>, x: usize) -> (r: Option<usize>)
    requires
        positions(s@).no_duplicates(),
    ensures
        r is Some <==> positions(s@).contains(x as int),
        r matches Some(k) ==> k < s@.len() && s@[k as int] == x && positions(s@).index_of(x as int)
            == k,
{
    let ghost p = positions(s@);
    let mut k: usize = 0;
    while k < s.len()
        invariant
            k <= s@.len(),
            p == positions(s@),
            p.no_duplicates(),
            forall|a: int| 0 <= a < k ==> p[a] != x,
        decreases s@.len() - k,
    {
        if s[k] == x {
            assert(p[k as int] == x);
            assert(p.contains(x as int));
            return Some(k);
        }
        k = k + 1;
    }
    None
}

/// Whether a value occurs.
fn occurs(s: &Vec<usize>, x: usize) -> (r: bool)
    ensures
        r == positions(s@).contains(x as int),
{
    let ghost p = positions(s@);
    let mut k: usize = 0;
    while k < s.len()
        invariant
            k <= s@.len(),
            p == positions(s@),
            forall|a: int| 0 <= a < k ==> p[a] != x,
        decreases s@.len() - k,
    {
        if s[k] == x {
            assert(p[k as int] == x);
            return true;
        }
        k = k + 1;
    }
    false
}

/// The canonical order of the members of a recursive group: named members by
/// name, then lambdas as they are first referred to, then whatever is left by
/// temporary hash.
fn canonical_member_order(
    nodes: &Vec<Node>,
    comp: &Vec<usize>,
    local: &OrdMap<Digest, usize>,
) -> (r: Vec<usize>)
    requires
        is_local_index(node_views(nodes@), local@),
        positions(comp@).no_duplicates(),
        forall|k: int| 0 <= k < comp@.len() ==> (#[trigger] comp@[k]) < nodes@.len(),
    ensures
        positions(r@) == member_order(node_views(nodes@), positions(comp@)),
        forall|k: int| 0 <= k < r@.len() ==> (#[trigger] r@[k]) < nodes@.len(),
{
    let ghost views = node_views(nodes@);
    let ghost c = positions(comp@);
    let mut name_bytes: Vec<Vec<u8>> = Vec::new();
    let mut temp_bytes: Vec<Vec<u8>> = Vec::new();
    let mut i: usize = 0;
    while i < nodes.len()
        invariant
            i <= nodes@.len(),
            views == node_views(nodes@),
            key_views(name_bytes@) == name_keys(views).take(i as int),
            key_views(temp_bytes@) == temp_keys(views).take(i as int),
        decreases nodes@.len() - i,
    {
        let key: Vec<u8> = match &nodes[i].group_name {
            Some(n) => vstd::slice::slice_to_vec(n.as_str().as_bytes()),
            None => Vec::new(),
        };
        let temp: Vec<u8> = vstd::slice::slice_to_vec(nodes[i].temp.as_bytes());
        let ghost names = key_views(name_bytes@);
        let ghost temps = key_views(temp_bytes@);
        let ghost last = (key@, temp@);
        assert(key@ =~= name_keys(views)[i as int]);
        assert(temp@ =~= temp_keys(views)[i as int]);
        name_bytes.push(key);
        temp_bytes.push(temp);
        assert(key_views(name_bytes@) =~= names.push(last.0));
        assert(key_views(temp_bytes@) =~= temps.push(last.1));
        i = i + 1;
        assert(key_views(name_bytes@) =~= name_keys(views).take(i as int));
        assert(key_views(temp_bytes@) =~= temp_keys(views).take(i as int));
    }
    assert(key_views(name_bytes@) =~= name_keys(views));
    assert(key_views(temp_bytes@) =~= temp_keys(views));
    let ghost is_named = |i: int| views[i].group_name is Some;
    let mut named: Vec<usize> = Vec::new();
    let mut k: usize = 0;
    proof {
        reveal(Seq::filter);
        assert(c.take(0) =~= seq![]);
        assert(positions(named@) =~= c.take(0).filter(is_named));
    }
    while k < comp.len()
        invariant
            k <= comp@.len(),
            views == node_views(nodes@),
            c == positions(comp@),
            is_named == |i: int| views[i].group_name is Some,
            forall|k: int| 0 <= k < comp@.len() ==> (#[trigger] comp@[k]) < nodes@.len(),
            forall|k: int| 0 <= k < named@.len() ==> (#[trigger] named@[k]) < nodes@.len(),
            positions(named@) == c.take(k as int).filter(is_named),
        decreases comp@.len() - k,
    {
        proof {
            reveal(Seq::filter);
            assert(c.take(k + 1).drop_last() =~= c.take(k as int));
            assert(c.take(k + 1).last() == comp@[k as int]);
        }
        let ghost was = named@;
        if nodes[comp[k]].group_name.is_some() {
            named.push(comp[k]);
            assert(positions(named@) =~= positions(was).push(comp@[k as int] as int));
        }
        k = k + 1;
    }
    assert(c.take(comp@.len() as int) =~= c);
    let mut order: Vec<usize> = sort_positions(&name_bytes, named);
    let mut cursor: usize = 0;
    let ghost first = positions(order@);
    while cursor < order.len() && cursor < nodes.len()
        invariant
            views == node_views(nodes@),
            c == positions(comp@),
            is_local_index(views, local@),
            forall|k: int| 0 <= k < comp@.len() ==> (#[trigger] comp@[k]) < nodes@.len(),
            forall|k: int| 0 <= k < order@.len() ==> (#[trigger] order@[k]) < nodes@.len(),
            place_all(views, c, first, 0) == place_all(
                views,
                c,
                positions(order@),
                cursor as int,
            ),
        decreases nodes@.len() - cursor,
    {
        let at: usize = order[cursor];
        let constants = &nodes[at].func.constants;
        let ghost cs = constant_views(constants@);
        let ghost start = positions(order@);
        assert(cs == views[start[cursor as int]].func.constants);
        let mut m: usize = 0;
        assert(cs.take(0) =~= seq![]);
        while m < constants.len()
            invariant
                m <= constants@.len(),
                cs == constant_views(constants@),
                views == node_views(nodes@),
                c == positions(comp@),
                is_local_index(views, local@),
                forall|k: int| 0 <= k < comp@.len() ==> (#[trigger] comp@[k]) < nodes@.len(),
                forall|k: int| 0 <= k < order@.len() ==> (#[trigger] order@[k]) < nodes@.len(),
                positions(order@) == place_refs(views, c, start, cs.take(m as int)),
            decreases constants@.len() - m,
        {
            assert(cs.take(m + 1).drop_last() =~= cs.take(m as int));
            assert(cs.take(m + 1).last() == constants@[m as int]@);
            if let Constant::Function(h) = &constants[m] {
                if let Some(j) = local.get(h) {
                    proof {
                        lemma_local_at(views, h@);
                    }
                    if occurs(comp, *j) && !occurs(&order, *j) {
                        let ghost was = order@;
                        order.push(*j);
                        assert(positions(order@) =~= positions(was).push(*j as int));
                    }
                }
            }
            m = m + 1;
        }
        assert(cs.take(constants@.len() as int) =~= cs);
        cursor = cursor + 1;
    }
    let ghost placed = positions(order@);
    let ghost is_left = |i: int| !placed.contains(i);
    let mut left: Vec<usize> = Vec::new();
    let mut q: usize = 0;
    proof {
        reveal(Seq::filter);
        assert(c.take(0) =~= seq![]);
        assert(positions(left@) =~= c.take(0).filter(is_left));
    }
    while q < comp.len()
        invariant
            q <= comp@.len(),
            c == positions(comp@),
            placed == positions(order@),
            is_left == |i: int| !placed.contains(i),
            forall|k: int| 0 <= k < comp@.len() ==> (#[trigger] comp@[k]) < nodes@.len(),
            forall|k: int| 0 <= k < left@.len() ==> (#[trigger] left@[k]) < nodes@.len(),
            positions(left@) == c.take(q as int).filter(is_left),
        decreases comp@.len() - q,
    {
        proof {
            reveal(Seq::filter);
            assert(c.take(q + 1).drop_last() =~= c.take(q as int));
            assert(c.take(q + 1).last() == comp@[q as int]);
        }
        let ghost was = left@;
        if !occurs(&order, comp[q]) {
            left.push(comp[q]);
            assert(positions(left@) =~= positions(was).push(comp@[q as int] as int));
        }
        q = q + 1;
    }
    assert(c.take(comp@.len() as int) =~= c);
    let mut rest: Vec<usize> = sort_positions(&temp_bytes, left);
    let ghost a = order@;
    let ghost b = rest@;
    order.append(&mut rest);
    assert(positions(order@) =~= positions(a) + positions(b));
    assert(named_members(views, c) == c.filter(is_named));
    order
}

/// The final hashes that are known.
pub open spec fn fin_view(fin: Seq<Option<Digest>>) -> Seq<Option<Seq<u8>>> {
    Seq::new(
        fin.len(),
        |i: int|
            match fin[i] {
                Some(h) => Some(h@),
                None => None,
            },
    )
}

/// The node that is stored by itself.
spec fn own_of(own: Option<usize>) -> int {
    match own {
        Some(i) => i as int,
        None => -1,
    }
}

/// How references to nodes are stored.
fn build_substitution(
    nodes: &Vec<Node>,
    local: &OrdMap<Digest, usize>,
    fin: &Vec<Option<Digest>>,
    order: &Vec<usize>,
    own: Option<usize>,
) -> (r: OrdMap<Digest, ObjectRef>)
    requires
        is_local_index(node_views(nodes@), local@),
        fin@.len() == nodes@.len(),
        positions(order@).no_duplicates(),
    ensures
        subst_view(r@) == link_map(
            node_views(nodes@),
            fin_view(fin@),
            positions(order@),
            own_of(own),
        ),
{
    let ghost views = node_views(nodes@);
    let ghost f = fin_view(fin@);
    let ghost ord = positions(order@);
    let ghost all = link_map(views, f, ord, own_of(own));
    let mut subst: OrdMap<Digest, ObjectRef> = OrdMap::new();
    let mut i: usize = 0;
    proof {
        assert forall|x: Seq<u8>| #[trigger] all.contains_key(x) implies 0 <= local_at(
            views,
            x,
        )->0 by {
            lemma_local_at(views, x);
        }
    }
    while i < nodes.len()
        invariant
            i <= nodes@.len(),
            views == node_views(nodes@),
            f == fin_view(fin@),
            ord == positions(order@),
            ord.no_duplicates(),
            all == link_map(views, f, ord, own_of(own)),
            fin@.len() == nodes@.len(),
            is_local_index(views, local@),
            forall|x: Seq<u8>| #[trigger]
                subst@.contains_key(x) <==> all.contains_key(x) && 0 <= local_at(views, x)->0 < i,
            forall|x: Seq<u8>| #[trigger]
                subst@.contains_key(x) ==> subst@[x].content() == all[x],
        decreases nodes@.len() - i,
    {
        let ghost was = subst@;
        let ghost t = nodes@[i as int].temp@;
        assert(views[i as int].temp == t);
        proof {
            lemma_local_at(views, t);
        }
        let last = match local.get(&nodes[i].temp) {
            Some(j) => *j == i,
            None => false,
        };
        let is_own = match own {
            Some(o) => o == i,
            None => false,
        };
        if last && !is_own {
            match position_of(order, i) {
                Some(k) => {
                    subst.insert(nodes[i].temp, ObjectRef::Internal(k as u32));
                },
                None => {
                    if let Some(h) = &fin[i] {
                        subst.insert(nodes[i].temp, ObjectRef::External(*h));
                    }
                },
            }
        }
        assert forall|x: Seq<u8>| #[trigger]
            subst@.contains_key(x) <==> all.contains_key(x) && 0 <= local_at(views, x)->0 < i
                + 1 by {
            lemma_local_at(views, x);
            assert(was.contains_key(x) <==> all.contains_key(x) && 0 <= local_at(views, x)->0 < i);
        }
        assert forall|x: Seq<u8>| #[trigger] subst@.contains_key(x) implies subst@[x].content()
            == all[x] by {
            lemma_local_at(views, x);
            assert(was.contains_key(x) ==> was[x].content() == all[x]);
        }
        i = i + 1;
    }
    proof {
        assert forall|x: Seq<u8>| #[trigger] subst@.contains_key(x) <==> all.contains_key(x) by {
            lemma_local_at(views, x);
        }
        assert(subst_view(subst@) =~= all);
    }
    subst
}

/// Whether all dependencies of a function can be stored.
fn dependencies_known(
    nodes: &Vec<Node>,
    local: &OrdMap<Digest, usize>,
    fin: &Vec<Option<Digest>>,
    order: &Vec<usize>,
    own: Option<usize>,
    i: usize,
) -> (r: bool)
    requires
        is_local_index(node_views(nodes@), local@),
        fin@.len() == nodes@.len(),
        i < nodes@.len(),
    ensures
        r <==> forall|k: int|
            0 <= k < node_views(nodes@)[i as int].func.dependencies.len() ==> link_known(
                node_views(nodes@),
                fin_view(fin@),
                positions(order@),
                own_of(own),
                #[trigger] node_views(nodes@)[i as int].func.dependencies[k],
            ),
{
    let ghost views = node_views(nodes@);
    let ghost f = fin_view(fin@);
    let ghost ord = positions(order@);
    let ghost ds = views[i as int].func.dependencies;
    let deps = &nodes[i].func.dependencies;
    assert(ds == digest_views(deps@));
    let mut k: usize = 0;
    while k < deps.len()
        invariant
            k <= deps@.len(),
            views == node_views(nodes@),
            f == fin_view(fin@),
            ord == positions(order@),
            ds == digest_views(deps@),
            ds == views[i as int].func.dependencies,
            fin@.len() == nodes@.len(),
            is_local_index(views, local@),
            forall|a: int| 0 <= a < k ==> link_known(views, f, ord, own_of(own), #[trigger] ds[a]),
        decreases deps@.len() - k,
    {
        let ghost x = ds[k as int];
        assert(x == deps@[k as int]@);
        proof {
            lemma_local_at(views, x);
        }
        if let Some(j) = local.get(&deps[k]) {
            let is_own = match own {
                Some(o) => o == *j,
                None => false,
            };
            if !is_own && fin[*j].is_none() && !occurs(order, *j) {
                assert(!link_known(views, f, ord, own_of(own), ds[k as int]));
                return false;
            }
        }
        k = k + 1;
    }
    true
}

/// Whether what is final is right, and the objects are those of the final nodes.
pub open spec fn progress(
    nodes: Seq<NodeView>,
    fin: Seq<Option<Seq<u8>>>,
    objects: Map<Seq<u8>, ObjectView>,
) -> bool {
    &&& fin.len() == nodes.len()
    &&& forall|i: int| 0 <= i < nodes.len() && (#[trigger] fin[i]) is Some ==> settled(nodes, fin, i)
    &&& forall|i: int|
        0 <= i < nodes.len() && (#[trigger] fin[i]) is Some ==> can_store(nodes, i) && node_ordered(
            nodes,
            i,
        )
    &&& forall|i: int, j: int|
        0 <= i < nodes.len() && (#[trigger] fin[i]) is Some && #[trigger] same_component(
            call_graph(nodes),
            i,
            j,
        ) ==> fin[j] is Some
    &&& forall|key: Seq<u8>| #[trigger]
        objects.contains_key(key) ==> exists|i: int|
            0 <= i < nodes.len() && fin[i] is Some && #[trigger] gives_object(
                nodes,
                fin,
                i,
                key,
                objects[key],
            )
    &&& forall|i: int|
        0 <= i < nodes.len() && (#[trigger] fin[i]) is Some ==> has_objects(
            nodes,
            fin,
            i,
            objects.dom(),
        )
}

/// Whether a node becomes final with the objects at hand.
pub open spec fn becomes_final(
    nodes: Seq<NodeView>,
    a: Seq<Option<Seq<u8>>>,
    b: Seq<Option<Seq<u8>>>,
    keys: Set<Seq<u8>>,
    j: int,
) -> bool {
    &&& object_known(nodes, a, j)
    &&& can_store(nodes, j)
    &&& node_ordered(nodes, j)
    &&& b[j] == Some(node_hash(nodes, a, j))
    &&& has_objects(nodes, a, j, keys)
}

proof fn lemma_advance(
    nodes: Seq<NodeView>,
    a: Seq<Option<Seq<u8>>>,
    b: Seq<Option<Seq<u8>>>,
    objs: Map<Seq<u8>, ObjectView>,
    objs2: Map<Seq<u8>, ObjectView>,
)
    requires
        progress(nodes, a, objs),
        extends(a, b),
        forall|j: int|
            0 <= j < nodes.len() && a[j] is None && (#[trigger] b[j]) is Some ==> becomes_final(
                nodes,
                a,
                b,
                objs2.dom(),
                j,
            ),
        forall|key: Seq<u8>| #[trigger]
            objs2.contains_key(key) ==> (objs.contains_key(key) && objs2[key] == objs[key])
                || exists|j: int|
                0 <= j < nodes.len() && b[j] is Some && object_known(nodes, a, j)
                    && #[trigger] gives_object(nodes, a, j, key, objs2[key]),
        forall|key: Seq<u8>| #[trigger] objs.contains_key(key) ==> objs2.contains_key(key),
        forall|i: int, j: int|
            0 <= i < nodes.len() && (#[trigger] b[i]) is Some && #[trigger] same_component(
                call_graph(nodes),
                i,
                j,
            ) ==> b[j] is Some,
    ensures
        progress(nodes, b, objs2),
{
    assert forall|i: int| 0 <= i < nodes.len() && (#[trigger] b[i]) is Some implies settled(
        nodes,
        b,
        i,
    ) && has_objects(nodes, b, i, objs2.dom()) && can_store(nodes, i) && node_ordered(nodes, i) by {
        if a[i] is Some {
            assert(settled(nodes, a, i));
            assert(has_objects(nodes, a, i, objs.dom()));
            assert(has_objects(nodes, a, i, objs2.dom()));
        } else {
            assert(becomes_final(nodes, a, b, objs2.dom(), i));
        }
        lemma_object_stable(nodes, a, b, i);
        assert(has_objects(nodes, b, i, objs2.dom()));
    }
    assert forall|key: Seq<u8>| #[trigger] objs2.contains_key(key) implies exists|i: int|
        0 <= i < nodes.len() && b[i] is Some && #[trigger] gives_object(
            nodes,
            b,
            i,
            key,
            objs2[key],
        ) by {
        if objs.contains_key(key) && objs2[key] == objs[key] {
            let i = choose|i: int|
                0 <= i < nodes.len() && a[i] is Some && #[trigger] gives_object(
                    nodes,
                    a,
                    i,
                    key,
                    objs[key],
                );
            assert(settled(nodes, a, i));
            lemma_object_stable(nodes, a, b, i);
            assert(gives_object(nodes, b, i, key, objs2[key]));
        } else {
            let j = choose|j: int|
                0 <= j < nodes.len() && b[j] is Some && object_known(nodes, a, j)
                    && #[trigger] gives_object(nodes, a, j, key, objs2[key]);
            lemma_object_stable(nodes, a, b, j);
            assert(gives_object(nodes, b, j, key, objs2[key]));
        }
    }
}

/// Whether every node that reaches fewer nodes is final.
pub open spec fn below_final(nodes: Seq<NodeView>, fin: Seq<Option<Seq<u8>>>, i: int) -> bool {
    forall|j: int|
        0 <= j < nodes.len() && reach_count(call_graph(nodes), j) < reach_count(
            call_graph(nodes),
            i,
        ) ==> (#[trigger] fin[j]) is Some
}

/// Whether exactly the nodes that come before a node are final.
pub open spec fn before_final(nodes: Seq<NodeView>, fin: Seq<Option<Seq<u8>>>, i: int) -> bool {
    forall|j: int|
        0 <= j < nodes.len() ==> (#[trigger] fin[j]) is Some == comes_before(
            call_graph(nodes),
            j,
            i,
        )
}

/// What a node's constants refer to is in its component, or final.
proof fn lemma_edge_known(nodes: Seq<NodeView>, fin: Seq<Option<Seq<u8>>>, i: int, j: int)
    requires
        fin.len() == nodes.len(),
        below_final(nodes, fin, i),
        edge(call_graph(nodes), i, j),
    ensures
        same_component(call_graph(nodes), i, j) || fin[j] is Some,
{
    let g = call_graph(nodes);
    reaches_itself(g, i);
    reaches_step(g, i, i, j);
    if !reaches(g, j, i) {
        reached_reaches_fewer(g, i, j);
    }
}

pub(crate) proof fn lemma_constant_edge(nodes: Seq<NodeView>, i: int, k: int)
    requires
        nodes.len() <= usize::MAX,
        0 <= i < nodes.len(),
        0 <= k < nodes[i].func.constants.len(),
        constant_ref(nodes[i].func.constants[k]) is Some,
        local_at(nodes, constant_ref(nodes[i].func.constants[k])->0) is Some,
    ensures
        edge(
            call_graph(nodes),
            i,
            local_at(nodes, constant_ref(nodes[i].func.constants[k])->0)->0,
        ),
{
    let cs = nodes[i].func.constants;
    let j = local_at(nodes, constant_ref(cs[k])->0)->0;
    lemma_local_at(nodes, constant_ref(cs[k])->0);
    lemma_ref_edge(nodes, cs, k);
    let g = call_graph(nodes);
    assert(g[i] == ref_nodes(nodes, cs));
    let e = choose|e: int|
        0 <= e < ref_nodes(nodes, cs).len() && (#[trigger] ref_nodes(nodes, cs)[e]) == j;
    assert(g[i][e] == j);
}

/// Store a node that is not recursive as a plain object.
fn finalize_plain(
    nodes: &Vec<Node>,
    local: &OrdMap<Digest, usize>,
    fin: &mut Vec<Option<Digest>>,
    objects: &mut OrdMap<Digest, StoredObject>,
    i: usize,
) -> (r: Result<(), CompileError>)
    requires
        is_local_index(node_views(nodes@), local@),
        progress(node_views(nodes@), fin_view(old(fin)@), object_map(old(objects)@)),
        i < nodes@.len(),
        old(fin)@[i as int] is None,
        !on_cycle(call_graph(node_views(nodes@)), i as int),
        before_final(node_views(nodes@), fin_view(old(fin)@), i as int),
    ensures
        r is Ok ==> progress(node_views(nodes@), fin_view(final(fin)@), object_map(final(objects)@))
            && extends(fin_view(old(fin)@), fin_view(final(fin)@)) && final(fin)@[i as int] is Some
            && forall|j: int|
            0 <= j < nodes@.len() && (#[trigger] fin_view(final(fin)@)[j]) is Some ==> fin_view(
                old(fin)@,
            )[j] is Some || same_component(call_graph(node_views(nodes@)), i as int, j),
        r matches Err(e) ==> finalize_fault(node_views(nodes@), e@),
{
    let ghost views = node_views(nodes@);
    let ghost a = fin_view(fin@);
    let ghost objs = object_map(objects@);
    let ghost g = call_graph(views);
    assert(views.len() == nodes.len());
    let none: Vec<usize> = Vec::new();
    assert(positions(none@) =~= seq![]);
    assert(below_final(views, a, i as int));
    if !dependencies_known(nodes, local, fin, &none, Some(i), i) {
        proof {
            let ds = views[i as int].func.dependencies;
            let k = choose|k: int|
                0 <= k < ds.len() && !link_known(views, a, seq![], i as int, #[trigger] ds[k]);
            lemma_local_at(views, ds[k]);
            let j = local_at(views, ds[k])->0;
            assert(a[j] is None);
            assert(!comes_before(g, j, i as int));
            assert(!dep_ordered(views, i as int, ds[k]));
            assert(!node_ordered(views, i as int));
        }
        let e = CompileError::internal("dependency finalized out of order", (0, 0));
        proof {
            let order = stored_with(views, i as int);
            lemma_stored_with(views, i as int);
            lemma_repeats(views, order);
            assert(!node_ordered(views, order[0]));
            lemma_first_fault(views, a, objs, i as int, e@);
        }
        return Err(e);
    }
    let subst = build_substitution(nodes, local, fin, &none, Some(i));
    let stored = match function_from_compiled(&nodes[i].func, &subst) {
        Ok(f) => f,
        Err(_) => {
            assert(!storable(views[i as int].func));
            let e = CompileError::internal(
                "constant pool value cannot be content-addressed",
                (0, 0),
            );
            proof {
                let f = views[i as int].func;
                let order = stored_with(views, i as int);
                lemma_stored_with(views, i as int);
                lemma_repeats(views, order);
                assert forall|k: int| 0 <= k < f.dependencies.len() implies dep_ordered(
                    views,
                    i as int,
                    #[trigger] f.dependencies[k],
                ) by {
                    assert(link_known(views, a, seq![], i as int, f.dependencies[k]));
                    lemma_local_at(views, f.dependencies[k]);
                }
                assert(node_ordered(views, i as int));
                assert(!storable(views[order[0]].func));
                lemma_first_fault(views, a, objs, i as int, e@);
            }
            return Err(e);
        },
    };
    let object = StoredObject::Plain(stored);
    let hash = object.hash();
    assert(object.content() == plain_object(views, a, i as int));
    objects.insert(hash, object);
    fin.set(i, Some(hash));
    proof {
        let b = fin_view(fin@);
        let objs2 = object_map(objects@);
        assert(objs2 =~= objs.insert(hash@, plain_object(views, a, i as int)));
        let f = views[i as int].func;
        assert forall|k: int| 0 <= k < f.constants.len() implies ((constant_ref(
            #[trigger] f.constants[k],
        ) matches Some(x) ==> link_known(views, a, seq![], i as int, x))) by {
            if let Some(x) = constant_ref(f.constants[k]) {
                if let Some(j) = local_at(views, x) {
                    lemma_constant_edge(views, i as int, k);
                    lemma_edge_known(views, a, i as int, j);
                }
            }
        }
        assert(object_known(views, a, i as int));
        assert forall|k: int| 0 <= k < f.dependencies.len() implies dep_ordered(
            views,
            i as int,
            #[trigger] f.dependencies[k],
        ) by {
            assert(link_known(views, a, seq![], i as int, f.dependencies[k]));
            lemma_local_at(views, f.dependencies[k]);
        }
        assert(becomes_final(views, a, b, objs2.dom(), i as int));
        reaches_itself(g, i as int);
        assert(gives_object(views, a, i as int, hash@, objs2[hash@]));
        assert forall|p: int, q: int|
            0 <= p < views.len() && (#[trigger] b[p]) is Some && #[trigger] same_component(
                g,
                p,
                q,
            ) implies b[q] is Some by {
            reached_in_range(g, p, q);
            if p == i {
                assert(q == i);
            } else {
                assert(a[p] is Some);
                assert(a[q] is Some);
            }
        }
        lemma_advance(views, a, b, objs, objs2);
    }
    Ok(())
}

/// Whether the members of a group have distinct names; `Err` with the place of
/// a name that stands before it too.
fn distinct_names(nodes: &Vec<Node>, order: &Vec<usize>) -> (r: Result<(), usize>)
    requires
        forall|k: int| 0 <= k < order@.len() ==> (#[trigger] order@[k]) < nodes@.len(),
    ensures
        r is Ok <==> !names_clash(node_views(nodes@), positions(order@)),
        r matches Err(k) ==> k < order@.len() && repeats_name(
            node_views(nodes@),
            positions(order@),
            k as int,
        ) && forall|q: int|
            0 <= q < k ==> !#[trigger] repeats_name(node_views(nodes@), positions(order@), q),
{
    let ghost views = node_views(nodes@);
    let ghost ord = positions(order@);
    let mut b: usize = 0;
    while b < order.len()
        invariant
            b <= order@.len(),
            views == node_views(nodes@),
            ord == positions(order@),
            forall|k: int| 0 <= k < order@.len() ==> (#[trigger] order@[k]) < nodes@.len(),
            forall|p: int, q: int|
                0 <= p < q < b && (#[trigger] views[ord[p]]).group_name is Some
                    ==> views[ord[p]].group_name != (#[trigger] views[ord[q]]).group_name,
        decreases order@.len() - b,
    {
        if let Some(name) = &nodes[order[b]].group_name {
            let mut a: usize = 0;
            while a < b
                invariant
                    a <= b < order@.len(),
                    forall|p: int, q: int|
                        0 <= p < q < b && (#[trigger] views[ord[p]]).group_name is Some
                            ==> views[ord[p]].group_name != (#[trigger] views[ord[q]]).group_name,
                    views == node_views(nodes@),
                    ord == positions(order@),
                    views[ord[b as int]].group_name == Some(name@),
                    forall|k: int| 0 <= k < order@.len() ==> (#[trigger] order@[k]) < nodes@.len(),
                    forall|p: int|
                        0 <= p < a && (#[trigger] views[ord[p]]).group_name is Some
                            ==> views[ord[p]].group_name != views[ord[b as int]].group_name,
                decreases b - a,
            {
                if let Some(other) = &nodes[order[a]].group_name {
                    assert(views[ord[a as int]].group_name == Some(other@));
                    if text_same(other.as_str(), name.as_str()) {
                        assert(views[ord[a as int]].group_name == views[ord[b as int]].group_name);
                        return Err(b);
                    }
                }
                a = a + 1;
            }
        } else {
            assert(views[ord[b as int]].group_name is None);
        }
        b = b + 1;
    }
    Ok(())
}

/// Store the members of a recursive group, in order.
fn store_members(
    nodes: &Vec<Node>,
    order: &Vec<usize>,
    subst: &OrdMap<Digest, ObjectRef>,
) -> (r: Result<Vec<GroupMember>, usize>)
    requires
        forall|k: int| 0 <= k < order@.len() ==> (#[trigger] order@[k]) < nodes@.len(),
    ensures
        r matches Ok(ms) ==> contents(ms@) == Seq::new(
            order@.len(),
            |k: int|
                MemberView {
                    name: node_views(nodes@)[positions(order@)[k]].group_name,
                    function: stored_function(
                        node_views(nodes@)[positions(order@)[k]].func,
                        subst_view(subst@),
                    ),
                },
        ),
        r is Ok ==> forall|k: int|
            0 <= k < order@.len() ==> storable(
                (#[trigger] node_views(nodes@)[positions(order@)[k]]).func,
            ),
        r is Err ==> exists|k: int|
            0 <= k < order@.len() && !storable(
                node_views(nodes@)[#[trigger] positions(order@)[k]].func,
            ),
{
    let ghost views = node_views(nodes@);
    let ghost ord = positions(order@);
    let ghost want = Seq::new(
        order@.len(),
        |k: int|
            MemberView {
                name: views[ord[k]].group_name,
                function: stored_function(views[ord[k]].func, subst_view(subst@)),
            },
    );
    let mut members: Vec<GroupMember> = Vec::new();
    let mut k: usize = 0;
    while k < order.len()
        invariant
            k <= order@.len(),
            views == node_views(nodes@),
            ord == positions(order@),
            forall|k: int| 0 <= k < order@.len() ==> (#[trigger] order@[k]) < nodes@.len(),
            want == Seq::new(
                order@.len(),
                |k: int|
                    MemberView {
                        name: views[ord[k]].group_name,
                        function: stored_function(views[ord[k]].func, subst_view(subst@)),
                    },
            ),
            members@.len() == k,
            forall|a: int| 0 <= a < k ==> (#[trigger] members@[a]).content() == want[a],
            forall|a: int| 0 <= a < k ==> storable((#[trigger] views[ord[a]]).func),
        decreases order@.len() - k,
    {
        let i: usize = order[k];
        let function = match function_from_compiled(&nodes[i].func, subst) {
            Ok(f) => f,
            Err(_) => {
                assert(!storable(views[ord[k as int]].func));
                return Err(i);
            },
        };
        let name = copy_opt_text(&nodes[i].group_name);
        let m = GroupMember { name, function };
        assert(m.content() == want[k as int]);
        members.push(m);
        k = k + 1;
    }
    assert(contents(members@) =~= want);
    Ok(members)
}

/// Store the members of a recursive group as a group object, and give each its
/// hash.
fn finalize_group(
    nodes: &Vec<Node>,
    local: &OrdMap<Digest, usize>,
    fin: &mut Vec<Option<Digest>>,
    objects: &mut OrdMap<Digest, StoredObject>,
    i: usize,
    comp: &Vec<usize>,
) -> (r: Result<(), CompileError>)
    requires
        is_local_index(node_views(nodes@), local@),
        progress(node_views(nodes@), fin_view(old(fin)@), object_map(old(objects)@)),
        i < nodes@.len(),
        old(fin)@[i as int] is None,
        on_cycle(call_graph(node_views(nodes@)), i as int),
        before_final(node_views(nodes@), fin_view(old(fin)@), i as int),
        positions(comp@) == component(call_graph(node_views(nodes@)), i as int),
        forall|k: int| 0 <= k < comp@.len() ==> (#[trigger] comp@[k]) < nodes@.len(),
    ensures
        r is Ok ==> progress(node_views(nodes@), fin_view(final(fin)@), object_map(final(objects)@))
            && extends(fin_view(old(fin)@), fin_view(final(fin)@)) && final(fin)@[i as int] is Some
            && forall|j: int|
            0 <= j < nodes@.len() && (#[trigger] fin_view(final(fin)@)[j]) is Some ==> fin_view(
                old(fin)@,
            )[j] is Some || same_component(call_graph(node_views(nodes@)), i as int, j),
        r matches Err(e) ==> finalize_fault(node_views(nodes@), e@),
{
    let ghost views = node_views(nodes@);
    let ghost a = fin_view(fin@);
    let ghost objs = object_map(objects@);
    let ghost g = call_graph(views);
    let ghost c = component(g, i as int);
    proof {
        lemma_component_below(g, i as int, g.len() as int);
        lemma_member_order(views, c);
        lemma_cycle(g, i as int);
        assert(below_final(views, a, i as int));
    }
    let order = canonical_member_order(nodes, comp, local);
    let ghost ord = positions(order@);
    assert(ord == order_of(views, i as int));
    assert forall|j: int| #[trigger] ord.contains(j) implies 0 <= j < views.len() && same_component(
        g,
        i as int,
        j,
    ) by {
        assert(c.contains(j));
    }
    if let Err(k) = distinct_names(nodes, &order) {
        let mut feature = owned("two default implementations of ability `");
        if let Some(name) = &nodes[order[k]].group_name {
            push_text(&mut feature, name.as_str());
        }
        push_text(
            &mut feature,
            "` are mutually recursive within one group, so their content identity is ambiguous; break the recursion so at most one of the ability's methods is part of each recursive cycle",
        );
        proof {
            let name = views[ord[k as int]].group_name->0;
            assert(feature@ =~= clash_text(name));
            assert(repeats_name(views, stored_with(views, i as int), k as int));
        }
        let e = CompileError::unsupported(feature, (0, 0));
        proof {
            lemma_first_fault(views, a, objs, i as int, e@);
        }
        return Err(e);
    }
    let mut k: usize = 0;
    while k < order.len()
        invariant
            k <= order@.len(),
            i < nodes@.len(),
            views == node_views(nodes@),
            a == fin_view(fin@),
            fin@.len() == nodes@.len(),
            ord == positions(order@),
            ord == stored_with(views, i as int),
            !names_clash(views, ord),
            progress(views, a, objs),
            g == call_graph(views),
            is_local_index(views, local@),
            below_final(views, a, i as int),
            before_final(views, a, i as int),
            forall|p: int| 0 <= p < k ==> #[trigger] node_ordered(views, ord[p]),
            forall|k: int| 0 <= k < order@.len() ==> (#[trigger] order@[k]) < nodes@.len(),
            forall|j: int| #[trigger]
                ord.contains(j) <==> 0 <= j < views.len() && same_component(g, i as int, j),
            forall|p: int| 0 <= p < k ==> links_known(views, a, ord, -1, (#[trigger] views[ord[p]]).func),
        decreases order@.len() - k,
    {
        let m: usize = order[k];
        proof {
            assert(ord[k as int] == m);
            assert(ord.contains(m as int));
            component_reaches_alike(g, i as int, m as int);
            lemma_first_of(g, i as int);
            assert(first_of(g, m as int) == first_of(g, i as int));
            assert(below_final(views, a, m as int));
        }
        if !dependencies_known(nodes, local, fin, &order, None, m) {
            proof {
                let ds = views[m as int].func.dependencies;
                let d = choose|d: int|
                    0 <= d < ds.len() && !link_known(views, a, ord, -1, #[trigger] ds[d]);
                lemma_local_at(views, ds[d]);
                let j = local_at(views, ds[d])->0;
                assert(a[j] is None);
                assert(!comes_before(g, j, m as int));
                if same_component(g, m as int, j) {
                    reaches_transitive(g, i as int, m as int, j);
                    reaches_transitive(g, j, m as int, i as int);
                    assert(ord.contains(j));
                }
                assert(!dep_ordered(views, m as int, ds[d]));
                assert(!node_ordered(views, m as int));
            }
            let e = CompileError::internal("dependency finalized out of order", (0, 0));
            proof {
                lemma_repeats(views, ord);
                assert(!node_ordered(views, stored_with(views, i as int)[k as int]));
                lemma_first_fault(views, a, objs, i as int, e@);
            }
            return Err(e);
        }
        proof {
            let f = views[m as int].func;
            assert forall|q: int| 0 <= q < f.dependencies.len() implies dep_ordered(
                views,
                m as int,
                #[trigger] f.dependencies[q],
            ) by {
                assert(link_known(views, a, ord, -1, f.dependencies[q]));
                lemma_local_at(views, f.dependencies[q]);
                if let Some(j) = local_at(views, f.dependencies[q]) {
                    if ord.contains(j) {
                        reaches_transitive(g, m as int, i as int, j);
                        reaches_transitive(g, j, i as int, m as int);
                    } else {
                        assert(a[j] is Some);
                    }
                }
            }
            assert(node_ordered(views, ord[k as int]));
            assert forall|q: int| 0 <= q < f.constants.len() implies ((constant_ref(
                #[trigger] f.constants[q],
            ) matches Some(x) ==> link_known(views, a, ord, -1, x))) by {
                if let Some(x) = constant_ref(f.constants[q]) {
                    if let Some(j) = local_at(views, x) {
                        assert(views.len() == nodes.len());
                        lemma_constant_edge(views, m as int, q);
                        lemma_edge_known(views, a, m as int, j);
                        if same_component(g, m as int, j) {
                            reached_in_range(g, m as int, j);
                            reaches_transitive(g, i as int, m as int, j);
                            reaches_transitive(g, j, m as int, i as int);
                            assert(ord.contains(j));
                        }
                    }
                }
            }
        }
        k = k + 1;
    }
    let subst = build_substitution(nodes, local, fin, &order, None);
    let members = match store_members(nodes, &order, &subst) {
        Ok(ms) => ms,
        Err(_) => {
            let e = CompileError::internal(
                "constant pool value cannot be content-addressed",
                (0, 0),
            );
            proof {
                lemma_repeats(views, ord);
                lemma_first_fault(views, a, objs, i as int, e@);
            }
            return Err(e);
        },
    };
    let object = StoredObject::Group(members);
    let group_hash = object.hash();
    let ghost group = group_object(views, a, ord);
    assert(object.content()->Group_0 =~= group->Group_0);
    let count: u32 = order.len() as u32;
    objects.insert(group_hash, object);
    proof {
        assert forall|j: int| #[trigger] ord.contains(j) implies object_known(views, a, j)
            && on_cycle(g, j) && order_of(views, j) == ord && can_store(views, j) && node_ordered(
            views,
            j,
        ) by {
            lemma_order_shared(views, i as int, j);
            assert(views[ord[ord.index_of(j)]] == views[j]);
            assert(node_ordered(views, ord[ord.index_of(j)]));
        }
        assert(object_map(objects@) =~= objs.insert(group_hash@, group));
        assert forall|j: int| #[trigger] ord.contains(j) implies a[j] is None by {
            if a[j] is Some {
                assert(same_component(g, j, i as int));
                assert(a[i as int] is Some);
            }
        }
        assert(ord.contains(i as int));
        assert(gives_object(views, a, i as int, group_hash@, group));
        let now = object_map(objects@);
        assert forall|key: Seq<u8>| #[trigger] now.contains_key(key) implies (objs.contains_key(key)
            && now[key] == objs[key]) || exists|j: int|
            ord.contains(j) && #[trigger] gives_object(views, a, j, key, now[key]) by {
            if key == group_hash@ {
                assert(gives_object(views, a, i as int, key, now[key]));
            }
        }
    }
    let mut q: usize = 0;
    while q < order.len()
        invariant
            q <= order@.len(),
            i < nodes@.len(),
            count == order@.len() as u32,
            views == node_views(nodes@),
            fin@.len() == nodes@.len(),
            a.len() == nodes@.len(),
            ord == positions(order@),
            ord.no_duplicates(),
            g == call_graph(views),
            group == group_object(views, a, ord),
            group_hash@ == object_hash(group),
            forall|k: int| 0 <= k < order@.len() ==> (#[trigger] order@[k]) < nodes@.len(),
            forall|j: int| #[trigger]
                ord.contains(j) <==> 0 <= j < views.len() && same_component(g, i as int, j),
            forall|j: int| #[trigger]
                ord.contains(j) ==> object_known(views, a, j) && can_store(views, j) && node_ordered(
                    views,
                    j,
                ) && on_cycle(g, j) && order_of(views, j) == ord,
            forall|j: int| #[trigger] ord.contains(j) ==> a[j] is None,
            forall|p: int|
                0 <= p < q ==> (#[trigger] fin_view(fin@)[ord[p]]) == Some(
                    node_hash(views, a, ord[p]),
                ),
            forall|j: int|
                0 <= j < nodes@.len() && !ord.contains(j) ==> (#[trigger] fin_view(fin@)[j])
                    == a[j],
            forall|key: Seq<u8>| #[trigger]
                objs.contains_key(key) ==> object_map(objects@).contains_key(key),
            object_map(objects@).contains_key(group_hash@),
            order@.len() > 1 ==> forall|p: int|
                0 <= p < q ==> object_map(objects@).contains_key(
                    #[trigger] node_hash(views, a, ord[p]),
                ),
            forall|key: Seq<u8>| #[trigger]
                object_map(objects@).contains_key(key) ==> (objs.contains_key(key) && object_map(
                    objects@,
                )[key] == objs[key]) || exists|j: int|
                    ord.contains(j) && #[trigger] gives_object(
                        views,
                        a,
                        j,
                        key,
                        object_map(objects@)[key],
                    ),
        decreases order@.len() - q,
    {
        let m: usize = order[q];
        let ghost before = object_map(objects@);
        let ghost fb = fin_view(fin@);
        proof {
            assert(ord[q as int] == m);
            assert(ord.contains(m as int));
            assert(ord.index_of(m as int) == q);
        }
        let h = member_hash(&group_hash, q as u32, count);
        assert(h@ == node_hash(views, a, m as int));
        fin.set(m, Some(h));
        assert(fin_view(fin@) =~= fb.update(m as int, Some(h@)));
        if order.len() > 1 {
            let redirect = StoredObject::Redirect(
                RedirectTarget { group: group_hash, index: q as u32 },
            );
            let ghost rv = redirect.content();
            objects.insert(h, redirect);
            proof {
                assert(object_map(objects@) =~= before.insert(h@, rv));
                assert(gives_object(views, a, m as int, h@, rv));
            }
        }
        proof {
            let now = object_map(objects@);
            assert forall|p: int| 0 <= p < q + 1 implies (#[trigger] fin_view(fin@)[ord[p]])
                == Some(node_hash(views, a, ord[p])) by {
                if p < q {
                    assert(ord[p] != ord[q as int]);
                    assert(fb[ord[p]] == Some(node_hash(views, a, ord[p])));
                }
            }
            assert forall|key: Seq<u8>| #[trigger] now.contains_key(key) implies (
            objs.contains_key(key) && now[key] == objs[key]) || exists|j: int|
                ord.contains(j) && #[trigger] gives_object(views, a, j, key, now[key]) by {
                if key == h@ && order@.len() > 1 {
                    assert(gives_object(views, a, m as int, key, now[key]));
                } else {
                    assert(before.contains_key(key));
                    if !(objs.contains_key(key) && before[key] == objs[key]) {
                        let j = choose|j: int|
                            ord.contains(j) && #[trigger] gives_object(
                                views,
                                a,
                                j,
                                key,
                                before[key],
                            );
                        assert(gives_object(views, a, j, key, now[key]));
                    }
                }
            }
        }
        q = q + 1;
    }
    proof {
        let b = fin_view(fin@);
        let objs2 = object_map(objects@);
        assert forall|j: int| #[trigger] ord.contains(j) implies b[j] == Some(
            node_hash(views, a, j),
        ) && has_objects(views, a, j, objs2.dom()) by {
            let p = ord.index_of(j);
            assert(fin_view(fin@)[ord[p]] == Some(node_hash(views, a, ord[p])));
        }
        assert forall|j: int|
            0 <= j < views.len() && a[j] is None && (#[trigger] b[j]) is Some implies becomes_final(
            views,
            a,
            b,
            objs2.dom(),
            j,
        ) by {
            assert(ord.contains(j));
        }
        assert forall|p: int, s: int|
            0 <= p < views.len() && (#[trigger] b[p]) is Some && #[trigger] same_component(
                g,
                p,
                s,
            ) implies b[s] is Some by {
            reached_in_range(g, p, s);
            if ord.contains(p) {
                reaches_transitive(g, i as int, p, s);
                reaches_transitive(g, s, p, i as int);
                assert(ord.contains(s));
            } else {
                assert(a[p] is Some);
                assert(a[s] is Some);
                if ord.contains(s) {
                    assert(a[s] is None);
                }
                assert(b[s] == a[s]);
            }
        }
        assert forall|key: Seq<u8>| #[trigger] objs2.contains_key(key) implies (objs.contains_key(
            key,
        ) && objs2[key] == objs[key]) || exists|j: int|
            0 <= j < views.len() && b[j] is Some && object_known(views, a, j)
                && #[trigger] gives_object(views, a, j, key, objs2[key]) by {
            if !(objs.contains_key(key) && objs2[key] == objs[key]) {
                let j = choose|j: int|
                    ord.contains(j) && #[trigger] gives_object(views, a, j, key, objs2[key]);
                assert(gives_object(views, a, j, key, objs2[key]));
            }
        }
        assert forall|j: int| 0 <= j < a.len() && (#[trigger] a[j]) is Some implies b[j] == a[j] by {
            if ord.contains(j) {
                assert(a[j] is None);
            }
        }
        lemma_advance(views, a, b, objs, objs2);
        assert(ord.contains(i as int));
    }
    Ok(())
}

/// Give every node its final hash, and store its object.
fn finalize_all(nodes: &Vec<Node>, local: &OrdMap<Digest, usize>) -> (r: Result<
    (Vec<Digest>, OrdMap<Digest, StoredObject>),
    CompileError,
>)
    requires
        is_local_index(node_views(nodes@), local@),
    ensures
        r matches Ok((h, objects)) ==> h@.len() == nodes@.len() && hashes_ok(
            node_views(nodes@),
            digest_views(h@),
        ) && objects_ok(node_views(nodes@), digest_views(h@), object_map(objects@))
            && finalizable(node_views(nodes@)),
        r matches Err(e) ==> finalize_fault(node_views(nodes@), e@),
{
    let ghost views = node_views(nodes@);
    let ghost g = call_graph(views);
    let n: usize = nodes.len();
    let graph = build_graph(nodes, local);
    assert(graph@.len() == n) by {
        assert(adjacency(graph@).len() == g.len());
    }
    let rows = reach_rows(&graph);
    let mut fin: Vec<Option<Digest>> = Vec::new();
    let mut counts: Vec<usize> = Vec::new();
    let mut z: usize = 0;
    while z < n
        invariant
            z <= n,
            n == nodes@.len(),
            n == g.len(),
            reach_table(g, rows@),
            fin@.len() == z,
            counts@.len() == z,
            forall|j: int| 0 <= j < z ==> (#[trigger] fin@[j]) is None,
            forall|j: int| 0 <= j < z ==> (#[trigger] counts@[j]) == reach_count(g, j),
            forall|j: int| 0 <= j < z ==> (#[trigger] counts@[j]) <= n,
        decreases n - z,
    {
        fin.push(None);
        let c: usize = count_row(&rows[z]);
        proof {
            assert(rows@[z as int]@ =~= Seq::new(g.len(), |j: int| reaches(g, z as int, j)));
            let all = Seq::new(g.len(), |j: int| true);
            count_is_monotone(rows@[z as int]@, all);
            lemma_count_all(all);
        }
        counts.push(c);
        z = z + 1;
    }
    let mut objects: OrdMap<Digest, StoredObject> = OrdMap::new();
    let mut level: u128 = 0;
    proof {
        assert forall|j: int| 0 <= j < n implies (#[trigger] fin_view(fin@)[j]) is None by {
            assert(fin@[j] is None);
        }
        assert(object_map(objects@) =~= Map::empty());
        assert(progress(views, fin_view(fin@), object_map(objects@)));
    }
    while level <= n as u128
        invariant
            level <= n + 1,
            n == nodes@.len(),
            n == g.len(),
            views == node_views(nodes@),
            g == call_graph(views),
            adjacency(graph@) == g,
            graph@.len() == n,
            reach_table(g, rows@),
            is_local_index(views, local@),
            counts@.len() == n,
            forall|j: int| 0 <= j < n ==> (#[trigger] counts@[j]) == reach_count(g, j),
            forall|j: int| 0 <= j < n ==> (#[trigger] counts@[j]) <= n,
            progress(views, fin_view(fin@), object_map(objects@)),
            forall|j: int|
                0 <= j < n && reach_count(g, j) < level ==> (#[trigger] fin_view(fin@)[j]) is Some,
            forall|j: int|
                0 <= j < n && (#[trigger] fin_view(fin@)[j]) is Some ==> reach_count(g, j) < level,
        decreases n + 1 - level,
    {
        let mut i: usize = 0;
        while i < n
            invariant
                i <= n,
                level <= n,
                n == nodes@.len(),
                n == g.len(),
                views == node_views(nodes@),
                g == call_graph(views),
                adjacency(graph@) == g,
                graph@.len() == n,
                reach_table(g, rows@),
                is_local_index(views, local@),
                counts@.len() == n,
                forall|j: int| 0 <= j < n ==> (#[trigger] counts@[j]) == reach_count(g, j),
                progress(views, fin_view(fin@), object_map(objects@)),
                forall|j: int|
                    0 <= j < n && reach_count(g, j) < level ==> (#[trigger] fin_view(
                        fin@,
                    )[j]) is Some,
                forall|j: int|
                    0 <= j < i && reach_count(g, j) <= level ==> (#[trigger] fin_view(
                        fin@,
                    )[j]) is Some,
                forall|j: int|
                    0 <= j < n && (#[trigger] fin_view(fin@)[j]) is Some ==> reach_count(g, j)
                        < level || (reach_count(g, j) == level && first_of(g, j) < i),
            decreases n - i,
        {
            let ghost a = fin_view(fin@);
            if counts[i] as u128 == level && fin[i].is_none() {
                assert(fin_view(fin@)[i as int] is None);
                let comp = component_of(&rows, i, Ghost(g));
                let itself = occurs(&graph[i], i);
                proof {
                    lemma_cycle(g, i as int);
                    assert(g[i as int] == graph@[i as int]@);
                    if itself {
                        let p = positions(graph@[i as int]@);
                        let k = p.index_of(i as int);
                        assert(g[i as int][k] == i);
                        assert(edge(g, i as int, i as int));
                    } else if edge(g, i as int, i as int) {
                        let k = choose|k: int|
                            0 <= k < g[i as int].len() && (#[trigger] g[i as int][k]) == i;
                        assert(positions(graph@[i as int]@)[k] == i);
                    }
                    lemma_first_of(g, i as int);
                    reaches_itself(g, i as int);
                    assert(same_component(g, i as int, i as int));
                    if first_of(g, i as int) < i {
                        let f = first_of(g, i as int);
                        component_reaches_alike(g, i as int, f);
                        assert(a[f] is Some);
                        assert(same_component(g, f, i as int));
                        assert(a[i as int] is Some);
                    }
                    assert forall|j: int| 0 <= j < n implies (#[trigger] a[j]) is Some
                        == comes_before(g, j, i as int) by {
                        lemma_first_of(g, j);
                        if comes_before(g, j, i as int) && reach_count(g, j) == level {
                            let f = first_of(g, j);
                            component_reaches_alike(g, j, f);
                            assert(a[f] is Some);
                            assert(same_component(g, f, j));
                        }
                    }
                    assert(before_final(views, a, i as int));
                }
                if itself || comp.len() > 1 {
                    finalize_group(nodes, local, &mut fin, &mut objects, i, &comp)?;
                } else {
                    finalize_plain(nodes, local, &mut fin, &mut objects, i)?;
                }
                assert(fin_view(fin@)[i as int] is Some);
                assert forall|j: int|
                    0 <= j < n && (#[trigger] fin_view(fin@)[j]) is Some implies reach_count(g, j)
                    < level || (reach_count(g, j) == level && first_of(g, j) < i + 1) by {
                    if a[j] is None {
                        component_reaches_alike(g, i as int, j);
                        lemma_first_of(g, i as int);
                    }
                }
                assert forall|j: int| 0 <= j < n && a[j] is Some implies (#[trigger] fin_view(
                    fin@,
                )[j]) is Some by {
                    assert(fin_view(fin@)[j] == a[j]);
                }
                assert forall|j: int| 0 <= j < n && reach_count(g, j) < level implies (
                #[trigger] fin_view(fin@)[j]) is Some by {
                    assert(a[j] is Some);
                }
                assert forall|j: int| 0 <= j < i + 1 && reach_count(g, j) <= level implies (
                #[trigger] fin_view(fin@)[j]) is Some by {
                    if j < i {
                        assert(a[j] is Some);
                    }
                }
            }
            i = i + 1;
        }
        level = level + 1;
    }
    let mut hashes: Vec<Digest> = Vec::new();
    let mut k: usize = 0;
    let ghost f = fin_view(fin@);
    assert forall|j: int| 0 <= j < n implies (#[trigger] f[j]) is Some by {
        assert(counts@[j] <= n);
    }
    while k < n
        invariant
            k <= n,
            n == nodes@.len(),
            fin@.len() == n,
            f == fin_view(fin@),
            forall|j: int| 0 <= j < n ==> (#[trigger] f[j]) is Some,
            hashes@.len() == k,
            forall|j: int| 0 <= j < k ==> f[j] == Some((#[trigger] hashes@[j])@),
        decreases n - k,
    {
        assert(f[k as int] is Some);
        let h = fin[k].unwrap();
        hashes.push(h);
        k = k + 1;
    }
    proof {
        let h = digest_views(hashes@);
        assert(known(h) =~= f);
        assert forall|i: int| 0 <= i < views.len() implies #[trigger] hash_ok(views, h, i) by {
            assert(f[i] is Some);
            assert(settled(views, f, i));
            assert(f[i] == Some(hashes@[i]@));
        }
        assert forall|i: int| 0 <= i < views.len() implies #[trigger] can_store(views, i) by {
            assert(f[i] is Some);
        }
        assert forall|i: int| 0 <= i < views.len() implies #[trigger] node_ordered(views, i) by {
            assert(f[i] is Some);
        }
        let objs = object_map(objects@);
        assert forall|key: Seq<u8>| #[trigger] objs.contains_key(key) implies exists|i: int|
            0 <= i < views.len() && #[trigger] gives_object(views, known(h), i, key, objs[key]) by {
            let i = choose|i: int|
                0 <= i < views.len() && f[i] is Some && #[trigger] gives_object(
                    views,
                    f,
                    i,
                    key,
                    objs[key],
                );
            assert(gives_object(views, known(h), i, key, objs[key]));
        }
        assert forall|i: int| 0 <= i < views.len() implies #[trigger] has_objects(
            views,
            known(h),
            i,
            objs.dom(),
        ) by {
            assert(f[i] is Some);
        }
    }
    Ok((hashes, objects))
}

proof fn lemma_count_all(s: Seq<bool>)
    ensures
        count_set(s) <= s.len(),
    decreases s.len(),
{
    if s.len() > 0 {
        lemma_count_all(s.drop_last());
    }
}

/// What a hash becomes.
fn relink(local: &OrdMap<Digest, usize>, hashes: &Vec<Digest>, x: &Digest, nodes: Ghost<Seq<NodeView>>) -> (r:
    Digest)
    requires
        is_local_index(nodes@, local@),
        hashes@.len() == nodes@.len(),
    ensures
        r@ == relink_hash(nodes@, digest_views(hashes@), x@),
{
    proof {
        lemma_local_at(nodes@, x@);
    }
    match local.get(x) {
        Some(j) => hashes[*j],
        None => *x,
    }
}

/// A node's function with final hashes in place of temporary ones.
fn relink_function(
    nodes: &Vec<Node>,
    local: &OrdMap<Digest, usize>,
    hashes: &Vec<Digest>,
    i: usize,
) -> (r: CompiledFunction)
    requires
        is_local_index(node_views(nodes@), local@),
        hashes@.len() == nodes@.len(),
        i < nodes@.len(),
    ensures
        r@ == relinked(node_views(nodes@), digest_views(hashes@), i as int),
{
    let ghost views = node_views(nodes@);
    let ghost h = digest_views(hashes@);
    let func = &nodes[i].func;
    let ghost cs = constant_views(func.constants@);
    let ghost ds = digest_views(func.dependencies@);
    let mut constants: Vec<Constant> = Vec::new();
    let mut k: usize = 0;
    while k < func.constants.len()
        invariant
            k <= func.constants@.len(),
            views == node_views(nodes@),
            h == digest_views(hashes@),
            hashes@.len() == views.len(),
            is_local_index(views, local@),
            cs == constant_views(func.constants@),
            constants@.len() == k,
            forall|a: int|
                0 <= a < k ==> (#[trigger] constants@[a])@ == relink_constant(views, h, cs[a]),
        decreases func.constants@.len() - k,
    {
        assert(cs[k as int] == func.constants@[k as int]@);
        let c = match &func.constants[k] {
            Constant::Function(x) => Constant::Function(relink(local, hashes, x, Ghost(views))),
            Constant::Method(m) => {
                let impl_fn = match &m.impl_fn {
                    Some(x) => Some(relink(local, hashes, x, Ghost(views))),
                    None => None,
                };
                Constant::Method(
                    AbilityMethodRef {
                        ability_id: m.ability_id,
                        ability_uuid: m.ability_uuid,
                        signature: m.signature,
                        impl_fn,
                        never: m.never,
                    },
                )
            },
            other => other.copy(),
        };
        constants.push(c);
        k = k + 1;
    }
    let mut dependencies: Vec<Digest> = Vec::new();
    let mut d: usize = 0;
    while d < func.dependencies.len()
        invariant
            d <= func.dependencies@.len(),
            views == node_views(nodes@),
            h == digest_views(hashes@),
            hashes@.len() == views.len(),
            is_local_index(views, local@),
            ds == digest_views(func.dependencies@),
            dependencies@.len() == d,
            forall|a: int|
                0 <= a < d ==> (#[trigger] dependencies@[a])@ == relink_hash(views, h, ds[a]),
        decreases func.dependencies@.len() - d,
    {
        let x = relink(local, hashes, &func.dependencies[d], Ghost(views));
        dependencies.push(x);
        d = d + 1;
    }
    let r = CompiledFunction {
        hash: hashes[i],
        bytecode: crate::wire::copy_bytes(&func.bytecode),
        constants,
        local_count: func.local_count,
        param_count: func.param_count,
        dependencies,
        debug_info: match &func.debug_info {
            Some(info) => Some(info.copy()),
            None => None,
        },
    };
    proof {
        let want = relinked(views, h, i as int);
        assert(r@.constants =~= want.constants);
        assert(r@.dependencies =~= want.dependencies);
        assert(r@.bytecode =~= want.bytecode);
    }
    r
}

/// Compute the final hashes of all nodes, and build the module of them.
pub fn finalize_nodes(nodes: &Vec<Node>) -> (r: Result<CompiledModule, CompileError>)
    ensures
        r matches Ok(m) ==> exists|h: Seq<Seq<u8>>| finalizes(node_views(nodes@), h, m),
        r matches Err(e) ==> finalize_fault(node_views(nodes@), e@),
        r is Ok <==> finalizable(node_views(nodes@)),
{
    let ghost views = node_views(nodes@);
    let local = local_index(nodes);
    let (hashes, objects) = match finalize_all(nodes, &local) {
        Ok(x) => x,
        Err(e) => {
            proof {
                assert(views.len() == nodes.len());
                fault_means_no_module(views, e@);
            }
            return Err(e);
        },
    };
    let ghost h = digest_views(hashes@);
    let mut m = CompiledModule::new();
    m.objects = objects;
    let mut i: usize = 0;
    proof {
        assert(function_map(m.functions@) =~= final_functions(views, h, 0));
        assert(name_map(m.function_names@) =~= final_names(views, h, 0));
        assert(parent_map(m.lambda_parents@) =~= final_parents(views, h, 0));
    }
    while i < nodes.len()
        invariant
            i <= nodes@.len(),
            views == node_views(nodes@),
            h == digest_views(hashes@),
            hashes@.len() == nodes@.len(),
            is_local_index(views, local@),
            hashes_ok(views, h),
            objects_ok(views, h, object_map(m.objects@)),
            function_map(m.functions@) == final_functions(views, h, i as int),
            name_map(m.function_names@) == final_names(views, h, i as int),
            parent_map(m.lambda_parents@) == final_parents(views, h, i as int),
            (match m.entry_point {
                Some(e) => Some(e@),
                None => None,
            }) == final_entry(views, h, i as int),
            m.const_names@ == Map::<Seq<char>, Digest>::empty(),
            m.signatures@ == Map::<Seq<char>, String>::empty(),
            m.migrations@ == Seq::<MigrationRecord>::empty(),
        decreases nodes@.len() - i,
    {
        let ghost v = views[i as int];
        let ghost fs = function_map(m.functions@);
        let ghost ns = name_map(m.function_names@);
        let ghost ps = parent_map(m.lambda_parents@);
        let func = relink_function(nodes, &local, &hashes, i);
        let hash = hashes[i];
        let ghost fv = func@;
        m.functions.insert(hash, func);
        assert(function_map(m.functions@) =~= fs.insert(hash@, fv));
        match &nodes[i].lambda_parent {
            Some(parent) => {
                m.lambda_parents.insert(hash, owned(parent.as_str()));
                assert(parent_map(m.lambda_parents@) =~= ps.insert(hash@, parent@));
            },
            None => {
                if let Some(name) = &nodes[i].name {
                    m.function_names.insert(owned(name.as_str()), hash);
                    assert(name_map(m.function_names@) =~= ns.insert(name@, hash@));
                    if nodes[i].is_main {
                        m.entry_point = Some(hash);
                    }
                }
            },
        }
        i = i + 1;
    }
    assert(finalizes(views, h, m));
    Ok(m)
}

// ── determinism ─────────────────────────────────────────────────────────────

/// Two assignments of final hashes agree on a node's references when they agree
/// on every node that comes before.
proof fn lemma_same_links(
    nodes: Seq<NodeView>,
    h1: Seq<Seq<u8>>,
    h2: Seq<Seq<u8>>,
    i: int,
    m: int,
    order: Seq<int>,
    own: int,
)
    requires
        nodes.len() <= usize::MAX,
        deps_ordered(nodes),
        h1.len() == nodes.len(),
        h2.len() == nodes.len(),
        0 <= i < nodes.len(),
        same_component(call_graph(nodes), i, m),
        forall|j: int|
            0 <= j < nodes.len() && comes_before(call_graph(nodes), j, i) ==> (#[trigger] h1[j])
                == h2[j],
        forall|j: int| #[trigger]
            same_component(call_graph(nodes), i, j) ==> order.contains(j) || j == own,
    ensures
        stored_function(nodes[m].func, link_map(nodes, known(h1), order, own)) == stored_function(
            nodes[m].func,
            link_map(nodes, known(h2), order, own),
        ),
{
    let g = call_graph(nodes);
    let f = nodes[m].func;
    let m1 = link_map(nodes, known(h1), order, own);
    let m2 = link_map(nodes, known(h2), order, own);
    reached_in_range(g, i, m);
    component_reaches_alike(g, i, m);
    lemma_first_of(g, i);
    assert forall|x: Seq<u8>| dep_ordered(nodes, m, x) implies #[trigger] resolved(m1, x)
        == resolved(m2, x) by {
        lemma_local_at(nodes, x);
        if local_at(nodes, x) is Some {
            let j = local_at(nodes, x)->0;
            if j == m {
                assert(order.contains(j) || j == own);
            } else if same_component(g, m, j) {
                reaches_transitive(g, i, m, j);
                reaches_transitive(g, j, m, i);
                assert(same_component(g, i, j));
            } else {
                assert(comes_before(g, j, i));
                assert(h1[j] == h2[j]);
            }
            assert(m1.contains_key(x) == m2.contains_key(x));
        } else {
            assert(!m1.contains_key(x));
            assert(!m2.contains_key(x));
        }
    }
    let f1 = stored_function(f, m1);
    let f2 = stored_function(f, m2);
    assert forall|k: int| 0 <= k < f.constants.len() implies f1.constants[k] == f2.constants[k] by {
        if let Some(x) = constant_ref(f.constants[k]) {
            if let Some(j) = local_at(nodes, x) {
                lemma_constant_edge(nodes, m, k);
                reaches_itself(g, m);
                reaches_step(g, m, m, j);
                if !reaches(g, j, m) {
                    reached_reaches_fewer(g, m, j);
                }
            }
            assert(dep_ordered(nodes, m, x));
            assert(resolved(m1, x) == resolved(m2, x));
        }
    }
    assert(f1.constants =~= f2.constants);
    assert forall|k: int| 0 <= k < f.dependencies.len() implies f1.dependencies[k]
        == f2.dependencies[k] by {
        assert(node_ordered(nodes, m));
        assert(dep_ordered(nodes, m, nodes[m].func.dependencies[k]));
        assert(resolved(m1, f.dependencies[k]) == resolved(m2, f.dependencies[k]));
    }
    assert(f1.dependencies =~= f2.dependencies);
}

proof fn lemma_unique_hash(nodes: Seq<NodeView>, h1: Seq<Seq<u8>>, h2: Seq<Seq<u8>>, i: int)
    requires
        nodes.len() <= usize::MAX,
        deps_ordered(nodes),
        hashes_ok(nodes, h1),
        hashes_ok(nodes, h2),
        0 <= i < nodes.len(),
    ensures
        h1[i] == h2[i],
    decreases reach_count(call_graph(nodes), i), first_of(call_graph(nodes), i),
{
    let g = call_graph(nodes);
    assert(hash_ok(nodes, h1, i));
    assert(hash_ok(nodes, h2, i));
    assert forall|j: int|
        0 <= j < nodes.len() && comes_before(g, j, i) implies (#[trigger] h1[j]) == h2[j] by {
        lemma_first_of(g, j);
        lemma_unique_hash(nodes, h1, h2, j);
    }
    lemma_component_below(g, i, g.len() as int);
    reaches_itself(g, i);
    if on_cycle(g, i) {
        let order = order_of(nodes, i);
        lemma_member_order(nodes, component(g, i));
        assert forall|j: int| #[trigger] same_component(g, i, j) implies order.contains(j) by {
            reached_in_range(g, i, j);
            assert(component(g, i).contains(j));
        }
        let g1 = group_object(nodes, known(h1), order)->Group_0;
        let g2 = group_object(nodes, known(h2), order)->Group_0;
        assert forall|k: int| 0 <= k < order.len() implies g1[k] == g2[k] by {
            assert(order.contains(order[k]));
            assert(component(g, i).contains(order[k]));
            lemma_same_links(nodes, h1, h2, i, order[k], order, -1);
        }
        assert(g1 =~= g2);
    } else {
        lemma_same_links(nodes, h1, h2, i, i, seq![], i);
    }
}

/// Nodes have one assignment of final hashes.
pub proof fn hashes_are_unique(nodes: Seq<NodeView>, h1: Seq<Seq<u8>>, h2: Seq<Seq<u8>>)
    requires
        nodes.len() <= usize::MAX,
        deps_ordered(nodes),
        hashes_ok(nodes, h1),
        hashes_ok(nodes, h2),
    ensures
        h1 == h2,
{
    assert forall|i: int| 0 <= i < nodes.len() implies h1[i] == h2[i] by {
        lemma_unique_hash(nodes, h1, h2, i);
    }
    assert(h1 =~= h2);
}

/// The final hashes are determined by the functions: two modules built of the
/// same nodes have the same functions under the same hashes and names.
pub proof fn finalization_is_unique(
    nodes: Seq<NodeView>,
    h1: Seq<Seq<u8>>,
    m1: CompiledModule,
    h2: Seq<Seq<u8>>,
    m2: CompiledModule,
)
    requires
        nodes.len() <= usize::MAX,
        deps_ordered(nodes),
        finalizes(nodes, h1, m1),
        finalizes(nodes, h2, m2),
    ensures
        h1 == h2,
        function_map(m1.functions@) == function_map(m2.functions@),
        name_map(m1.function_names@) == name_map(m2.function_names@),
        parent_map(m1.lambda_parents@) == parent_map(m2.lambda_parents@),
        object_map(m1.objects@).dom() == object_map(m2.objects@).dom(),
{
    hashes_are_unique(nodes, h1, h2);
    let a = object_map(m1.objects@);
    let b = object_map(m2.objects@);
    assert forall|key: Seq<u8>| a.contains_key(key) == b.contains_key(key) by {
        if a.contains_key(key) {
            let i = choose|i: int|
                0 <= i < nodes.len() && #[trigger] gives_object(nodes, known(h1), i, key, a[key]);
            assert(has_objects(nodes, known(h2), i, b.dom()));
        }
        if b.contains_key(key) {
            let i = choose|i: int|
                0 <= i < nodes.len() && #[trigger] gives_object(nodes, known(h2), i, key, b[key]);
            assert(has_objects(nodes, known(h1), i, a.dom()));
        }
    }
    assert(a.dom() =~= b.dom());
}

/// Every function object stands under the hash of its own bytes, so whoever has
/// the bytes can check them.
pub proof fn objects_stand_under_their_hash(
    nodes: Seq<NodeView>,
    h: Seq<Seq<u8>>,
    m: CompiledModule,
    key: Seq<u8>,
)
    requires
        finalizes(nodes, h, m),
        object_map(m.objects@).contains_key(key),
    ensures
        !(object_map(m.objects@)[key] is Redirect) ==> key == object_hash(
            object_map(m.objects@)[key],
        ),
{
    let i = choose|i: int|
        0 <= i < nodes.len() && #[trigger] gives_object(
            nodes,
            known(h),
            i,
            key,
            object_map(m.objects@)[key],
        );
    assert(gives_object(nodes, known(h), i, key, object_map(m.objects@)[key]));
}

// ── from functions to nodes ─────────────────────────────────────────────────

/// The node of a named function. It is ordered in a recursive group by the name
/// that `groups` gives it, else by its own.
pub open spec fn named_node(
    f: (String, CompiledFunction, bool),
    groups: Map<Seq<char>, String>,
) -> NodeView {
    NodeView {
        temp: f.1@.hash,
        name: Some(f.0@),
        group_name: Some(
            if groups.contains_key(f.0@) {
                groups[f.0@]@
            } else {
                f.0@
            },
        ),
        func: f.1@,
        is_main: f.2,
        lambda_parent: None,
    }
}

/// The node of a lambda.
pub open spec fn lambda_node(l: (Digest, String, CompiledFunction)) -> NodeView {
    NodeView {
        temp: l.0@,
        name: None,
        group_name: None,
        func: l.2@,
        is_main: false,
        lambda_parent: Some(l.1@),
    }
}

/// The nodes of functions and lambdas.
pub open spec fn module_nodes(
    functions: Seq<(String, CompiledFunction, bool)>,
    lambdas: Seq<(Digest, String, CompiledFunction)>,
    groups: Map<Seq<char>, String>,
) -> Seq<NodeView> {
    Seq::new(functions.len(), |i: int| named_node(functions[i], groups)) + Seq::new(
        lambdas.len(),
        |i: int| lambda_node(lambdas[i]),
    )
}

/// Compute the final hashes of all functions of a module, and build the module
/// of them.
///
/// A function that is not recursive becomes a plain object and has that
/// object's hash. The functions of a recursive component become one group
/// object, and each has a hash derived from the group's and its place in it.
pub fn finalize_module_hashes(
    functions: &Vec<(String, CompiledFunction, bool)>,
    lambdas: &Vec<(Digest, String, CompiledFunction)>,
    ability_impl_group_names: &OrdMap<String, String>,
) -> (r: Result<CompiledModule, CompileError>)
    ensures
        r matches Ok(m) ==> exists|h: Seq<Seq<u8>>|
            finalizes(module_nodes(functions@, lambdas@, ability_impl_group_names@), h, m),
        r matches Err(e) ==> finalize_fault(
            module_nodes(functions@, lambdas@, ability_impl_group_names@),
            e@,
        ),
        r is Ok <==> finalizable(module_nodes(functions@, lambdas@, ability_impl_group_names@)),
{
    let ghost want = module_nodes(functions@, lambdas@, ability_impl_group_names@);
    let mut nodes: Vec<Node> = Vec::new();
    let mut i: usize = 0;
    while i < functions.len()
        invariant
            i <= functions@.len(),
            want == module_nodes(functions@, lambdas@, ability_impl_group_names@),
            nodes@.len() == i,
            forall|k: int| 0 <= k < i ==> (#[trigger] nodes@[k])@ == want[k],
        decreases functions@.len() - i,
    {
        let name = &functions[i].0;
        let group_name = match ability_impl_group_names.get(name) {
            Some(g) => owned(g.as_str()),
            None => owned(name.as_str()),
        };
        let func = functions[i].1.copy();
        let node = Node {
            temp: func.hash,
            name: Some(owned(name.as_str())),
            group_name: Some(group_name),
            func,
            is_main: functions[i].2,
            lambda_parent: None,
        };
        assert(node@ == want[i as int]);
        nodes.push(node);
        i = i + 1;
    }
    let mut k: usize = 0;
    while k < lambdas.len()
        invariant
            k <= lambdas@.len(),
            want == module_nodes(functions@, lambdas@, ability_impl_group_names@),
            nodes@.len() == functions@.len() + k,
            forall|k: int| 0 <= k < nodes@.len() ==> (#[trigger] nodes@[k])@ == want[k],
        decreases lambdas@.len() - k,
    {
        let node = Node {
            temp: lambdas[k].0,
            name: None,
            group_name: None,
            func: lambdas[k].2.copy(),
            is_main: false,
            lambda_parent: Some(owned(lambdas[k].1.as_str())),
        };
        assert(node@ == want[functions@.len() + k]);
        nodes.push(node);
        k = k + 1;
    }
    assert(node_views(nodes@) =~= want);
    finalize_nodes(&nodes)
}

/// The temporary hash of a function: derived from its name alone.
pub open spec fn temporary_hash(name: Seq<char>) -> Seq<u8> {
    blake3_hash(encode_utf8("__temp_hash__"@) + encode_utf8(name))
}

/// The temporary hash of a function. It only stands in for the final one until
/// every function is compiled.
pub fn compute_temporary_hash(name: &str) -> (r: Digest)
    ensures
        r@ == temporary_hash(name@),
{
    let mut bytes = vstd::slice::slice_to_vec("__temp_hash__".as_bytes());
    let mut rest = vstd::slice::slice_to_vec(name.as_bytes());
    bytes.append(&mut rest);
    Digest::of(bytes.as_slice())
}

// ── constants ───────────────────────────────────────────────────────────────

/// The hash of the object of a constant; `None` for a value that no object can
/// hold.
pub open spec fn const_hash(c: ConstantView) -> Option<Seq<u8>> {
    match stored_value(c) {
        Some(v) => Some(object_hash(ObjectView::Value(v))),
        None => None,
    }
}

/// The hashes of the constants that can be stored, by name; of two constants of
/// one name the later counts.
pub open spec fn const_hashes(consts: Seq<(KeyView, ConstantView)>) -> Map<KeyView, Seq<u8>>
    decreases consts.len(),
{
    if consts.len() == 0 {
        Map::empty()
    } else {
        let before = const_hashes(consts.drop_last());
        match const_hash(consts.last().1) {
            Some(h) => before.insert(consts.last().0, h),
            None => before,
        }
    }
}

/// The objects of the constants that can be stored, by hash.
pub open spec fn const_objects(consts: Seq<(KeyView, ConstantView)>) -> Map<Seq<u8>, ObjectView>
    decreases consts.len(),
{
    if consts.len() == 0 {
        Map::empty()
    } else {
        let before = const_objects(consts.drop_last());
        match stored_value(consts.last().1) {
            Some(v) => before.insert(object_hash(ObjectView::Value(v)), ObjectView::Value(v)),
            None => before,
        }
    }
}

/// What named constants say.
pub open spec fn named_constants(s: Seq<(NameKey, Constant)>) -> Seq<(KeyView, ConstantView)> {
    Seq::new(s.len(), |i: int| (s[i].0@, s[i].1@))
}

/// The bytes of the hashes that keys are bound to.
pub open spec fn key_hashes(m: Map<KeyView, Digest>) -> Map<KeyView, Seq<u8>> {
    m.map_values(|h: Digest| h@)
}

/// Store every constant as an object of its own, and note its hash under its
/// name. A value that no object can hold is passed over.
pub fn finalize_const_values(consts: &Vec<(NameKey, Constant)>) -> (r: (
    NameTable<Digest>,
    OrdMap<Digest, StoredObject>,
))
    ensures
        key_hashes(r.0@) == const_hashes(named_constants(consts@)),
        object_map(r.1@) == const_objects(named_constants(consts@)),
{
    let mut hashes: NameTable<Digest> = NameTable::new();
    let mut objects: OrdMap<Digest, StoredObject> = OrdMap::new();
    let mut i: usize = 0;
    let ghost all = named_constants(consts@);
    assert(all.take(0) =~= seq![]);
    assert(key_hashes(hashes@) =~= Map::empty());
    assert(object_map(objects@) =~= Map::empty());
    while i < consts.len()
        invariant
            i <= consts@.len(),
            all == named_constants(consts@),
            key_hashes(hashes@) == const_hashes(all.take(i as int)),
            object_map(objects@) == const_objects(all.take(i as int)),
        decreases consts@.len() - i,
    {
        assert(all.take(i + 1).drop_last() =~= all.take(i as int));
        assert(all.take(i + 1).last() == all[i as int]);
        let ghost hs = key_hashes(hashes@);
        let ghost os = object_map(objects@);
        if let Ok(object) = value_object(&consts[i].1) {
            let hash = object.hash();
            let ghost v = object.content();
            hashes.insert(consts[i].0.copy(), hash);
            objects.insert(hash, object);
            assert(key_hashes(hashes@) =~= hs.insert(consts@[i as int].0@, hash@));
            assert(object_map(objects@) =~= os.insert(hash@, v));
        }
        i = i + 1;
    }
    assert(all.take(all.len() as int) =~= all);
    (hashes, objects)
}

} // verus!
