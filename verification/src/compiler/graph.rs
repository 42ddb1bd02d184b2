//! Reachability in a directed graph, and the components of nodes that reach
//! each other.

use vstd::prelude::*;

verus! {

/// Whether there is an edge from one node to another.
pub open spec fn edge(g: Seq<Seq<usize>>, i: int, j: int) -> bool {
    0 <= i < g.len() && 0 <= j < g.len() && exists|k: int|
        0 <= k < g[i].len() && (#[trigger] g[i][k]) == j
}

/// Whether step `k` of a walk follows an edge.
pub open spec fn step_ok(g: Seq<Seq<usize>>, p: Seq<int>, k: int) -> bool {
    edge(g, p[k], p[k + 1])
}

/// Whether `p` is a walk along edges from `i` to `j`.
pub open spec fn walk(g: Seq<Seq<usize>>, p: Seq<int>, i: int, j: int) -> bool {
    p.len() >= 1 && p[0] == i && p.last() == j && forall|k: int|
        0 <= k < p.len() - 1 ==> #[trigger] step_ok(g, p, k)
}

/// Whether `j` is reached from `i` along some number of edges, which may be
/// none.
pub open spec fn reaches(g: Seq<Seq<usize>>, i: int, j: int) -> bool {
    0 <= i < g.len() && exists|p: Seq<int>| walk(g, p, i, j)
}

/// Whether two nodes reach each other.
pub open spec fn same_component(g: Seq<Seq<usize>>, i: int, j: int) -> bool {
    reaches(g, i, j) && reaches(g, j, i)
}

/// Whether a node lies on a cycle.
pub open spec fn on_cycle(g: Seq<Seq<usize>>, i: int) -> bool {
    edge(g, i, i) || exists|j: int| j != i && #[trigger] same_component(g, i, j)
}

/// Every node reaches itself.
pub proof fn reaches_itself(g: Seq<Seq<usize>>, i: int)
    requires
        0 <= i < g.len(),
    ensures
        reaches(g, i, i),
{
    assert(walk(g, seq![i], i, i));
}

/// An edge extends what is reached.
pub proof fn reaches_step(g: Seq<Seq<usize>>, i: int, m: int, j: int)
    requires
        reaches(g, i, m),
        edge(g, m, j),
    ensures
        reaches(g, i, j),
{
    let p = choose|p: Seq<int>| walk(g, p, i, m);
    let q = p.push(j);
    assert forall|k: int| 0 <= k < q.len() - 1 implies #[trigger] step_ok(g, q, k) by {
        if k < p.len() - 1 {
            assert(step_ok(g, p, k));
        }
    }
    assert(walk(g, q, i, j));
}

/// Reaching is transitive.
pub proof fn reaches_transitive(g: Seq<Seq<usize>>, i: int, m: int, j: int)
    requires
        reaches(g, i, m),
        reaches(g, m, j),
    ensures
        reaches(g, i, j),
{
    let p = choose|p: Seq<int>| walk(g, p, i, m);
    let q = choose|q: Seq<int>| walk(g, q, m, j);
    let r = p + q.drop_first();
    assert forall|k: int| 0 <= k < r.len() - 1 implies #[trigger] step_ok(g, r, k) by {
        if k < p.len() - 1 {
            assert(step_ok(g, p, k));
        } else {
            assert(step_ok(g, q, k - (p.len() - 1)));
            assert(r[k] == q[k - (p.len() - 1)]);
            assert(r[k + 1] == q[k + 1 - (p.len() - 1)]);
        }
    }
    assert(r.last() == j) by {
        if q.len() > 1 {
            assert(r.last() == q.last());
        }
    }
    assert(walk(g, r, i, j));
}

/// What is reached lies in the graph.
pub proof fn reached_in_range(g: Seq<Seq<usize>>, i: int, j: int)
    requires
        reaches(g, i, j),
    ensures
        0 <= j < g.len(),
{
    let p = choose|p: Seq<int>| walk(g, p, i, j);
    if p.len() > 1 {
        assert(step_ok(g, p, p.len() - 2));
    }
}

/// A set of nodes that holds a node and is closed under edges holds all that
/// the node reaches.
proof fn lemma_closed_holds_reached(g: Seq<Seq<usize>>, seen: Seq<bool>, i: int, p: Seq<int>, j: int)
    requires
        seen.len() == g.len(),
        0 <= i < g.len(),
        seen[i],
        forall|a: int, b: int| 0 <= a < g.len() && seen[a] && #[trigger] edge(g, a, b) ==> seen[b],
        walk(g, p, i, j),
    ensures
        0 <= j < g.len(),
        seen[j],
    decreases p.len(),
{
    if p.len() > 1 {
        let q = p.drop_last();
        assert forall|k: int| 0 <= k < q.len() - 1 implies #[trigger] step_ok(g, q, k) by {
            assert(step_ok(g, p, k));
        }
        lemma_closed_holds_reached(g, seen, i, q, q.last());
        assert(step_ok(g, p, p.len() - 2));
        assert(edge(g, q.last(), j));
    }
}

/// The number of set flags.
pub open spec fn count_set(s: Seq<bool>) -> nat
    decreases s.len(),
{
    if s.len() == 0 {
        0
    } else {
        count_set(s.drop_last()) + (if s.last() {
            1nat
        } else {
            0nat
        })
    }
}

proof fn lemma_count_bound(s: Seq<bool>)
    ensures
        count_set(s) <= s.len(),
    decreases s.len(),
{
    if s.len() > 0 {
        lemma_count_bound(s.drop_last());
    }
}

proof fn lemma_count_update(s: Seq<bool>, i: int)
    requires
        0 <= i < s.len(),
        !s[i],
    ensures
        count_set(s.update(i, true)) == count_set(s) + 1,
    decreases s.len(),
{
    let t = s.update(i, true);
    if i == s.len() - 1 {
        assert(t.drop_last() =~= s.drop_last());
    } else {
        lemma_count_update(s.drop_last(), i);
        assert(t.drop_last() =~= s.drop_last().update(i, true));
    }
}

/// More flags set, counted.
pub proof fn count_is_monotone(a: Seq<bool>, b: Seq<bool>)
    requires
        a.len() == b.len(),
        forall|k: int| 0 <= k < a.len() && a[k] ==> b[k],
    ensures
        count_set(a) <= count_set(b),
        (exists|k: int| 0 <= k < a.len() && !a[k] && b[k]) ==> count_set(a) < count_set(b),
    decreases a.len(),
{
    if a.len() > 0 {
        let a1 = a.drop_last();
        let b1 = b.drop_last();
        assert forall|k: int| 0 <= k < a1.len() && a1[k] implies b1[k] by {
            assert(a[k]);
        }
        count_is_monotone(a1, b1);
        if exists|k: int| 0 <= k < a.len() && !a[k] && b[k] {
            let k = choose|k: int| 0 <= k < a.len() && !a[k] && b[k];
            if k < a.len() - 1 {
                assert(!a1[k] && b1[k]);
            }
            assert(a[a.len() - 1] ==> b[a.len() - 1]);
        } else {
            assert(a[a.len() - 1] ==> b[a.len() - 1]);
        }
    }
}

/// The edges of a graph.
pub open spec fn adjacency(g: Seq<Vec<usize>>) -> Seq<Seq<usize>> {
    Seq::new(g.len(), |i: int| g[i]@)
}

/// Flags of the nodes that a node reaches.
pub fn reach_row(graph: &Vec<Vec<usize>>, from: usize) -> (r: Vec<bool>)
    requires
        from < graph@.len(),
        forall|i: int, k: int|
            0 <= i < graph@.len() && 0 <= k < graph@[i]@.len() ==> #[trigger] graph@[i]@[k]
                < graph@.len(),
    ensures
        r@.len() == graph@.len(),
        forall|j: int|
            0 <= j < r@.len() ==> (#[trigger] r@[j]) == reaches(
                adjacency(graph@),
                from as int,
                j,
            ),
{
    let ghost g = adjacency(graph@);
    let n: usize = graph.len();
    let mut seen: Vec<bool> = Vec::new();
    let mut z: usize = 0;
    while z < n
        invariant
            z <= n,
            seen@.len() == z,
            forall|j: int| 0 <= j < z ==> !seen@[j],
        decreases n - z,
    {
        seen.push(false);
        z = z + 1;
    }
    seen.set(from, true);
    let mut pending: Vec<usize> = Vec::new();
    pending.push(from);
    proof {
        reaches_itself(g, from as int);
        lemma_count_bound(seen@);
        assert(pending@[0] == from);
        assert(pending@.contains(from));
    }
    while pending.len() > 0
        invariant
            n == graph@.len(),
            g == adjacency(graph@),
            from < n,
            seen@.len() == n,
            seen@[from as int],
            count_set(seen@) <= n,
            forall|i: int, k: int|
                0 <= i < graph@.len() && 0 <= k < graph@[i]@.len() ==> #[trigger] graph@[i]@[k]
                    < graph@.len(),
            forall|k: int| 0 <= k < pending@.len() ==> (#[trigger] pending@[k]) < n
                && seen@[pending@[k] as int],
            forall|j: int| 0 <= j < n && #[trigger] seen@[j] ==> reaches(g, from as int, j),
            forall|a: int, b: int|
                0 <= a < n && seen@[a] && !pending@.contains(a as usize) && #[trigger] edge(g, a, b)
                    ==> seen@[b],
        decreases n - count_set(seen@), pending@.len(),
    {
        let ghost was = pending@;
        let m: usize = pending.pop().unwrap();
        assert(m == was.last());
        assert(m == was[was.len() - 1]);
        let ghost base = pending@;
        let ghost start = seen@;
        let edges = &graph[m];
        assert(g[m as int] == edges@);
        let mut e: usize = 0;
        assert forall|a: int, b: int|
            0 <= a < n && seen@[a] && a != m && !pending@.contains(a as usize) && #[trigger] edge(
                g,
                a,
                b,
            ) implies seen@[b] by {
            if was.contains(a as usize) {
                let k = was.index_of(a as usize);
                assert(was[k] == a);
                if k < was.len() - 1 {
                    assert(base[k] == a as usize);
                    assert(base.contains(a as usize));
                }
            }
        }
        while e < edges.len()
            invariant
                n == graph@.len(),
                g == adjacency(graph@),
                from < n,
                m < n,
                e <= edges@.len(),
                edges@ == g[m as int],
                edges@ == graph@[m as int]@,
                seen@.len() == n,
                seen@[from as int],
                seen@[m as int],
                count_set(seen@) <= n,
                count_set(start) + (pending@.len() - base.len()) == count_set(seen@),
                pending@.len() >= base.len(),
                base.len() + 1 == was.len(),
                forall|i: int, k: int|
                    0 <= i < graph@.len() && 0 <= k < graph@[i]@.len() ==> #[trigger] graph@[i]@[k]
                        < graph@.len(),
                forall|k: int| 0 <= k < pending@.len() ==> (#[trigger] pending@[k]) < n
                    && seen@[pending@[k] as int],
                forall|j: int| 0 <= j < n && #[trigger] seen@[j] ==> reaches(g, from as int, j),
                forall|a: int, b: int|
                    0 <= a < n && seen@[a] && a != m && !pending@.contains(a as usize)
                        && #[trigger] edge(g, a, b) ==> seen@[b],
                forall|k: int| 0 <= k < e ==> seen@[(#[trigger] edges@[k]) as int],
            decreases edges@.len() - e,
        {
            let j: usize = edges[e];
            assert(graph@[m as int]@[e as int] == j);
            assert(j < n);
            if !seen[j] {
                let ghost before = pending@;
                let ghost flags = seen@;
                proof {
                    lemma_count_update(seen@, j as int);
                    lemma_count_bound(seen@.update(j as int, true));
                    assert(g[m as int][e as int] == j);
                    assert(edge(g, m as int, j as int));
                    reaches_step(g, from as int, m as int, j as int);
                }
                seen.set(j, true);
                pending.push(j);
                assert forall|a: int, b: int|
                    0 <= a < n && seen@[a] && a != m && !pending@.contains(a as usize)
                        && #[trigger] edge(g, a, b) implies seen@[b] by {
                    assert(pending@[before.len() as int] == j);
                    assert(pending@.contains(j));
                    if a != j {
                        assert(flags[a]);
                        assert(!before.contains(a as usize)) by {
                            if before.contains(a as usize) {
                                let k = before.index_of(a as usize);
                                assert(pending@[k] == a as usize);
                            }
                        }
                        assert(flags[b]);
                    }
                }
            }
            e = e + 1;
        }
        assert forall|a: int, b: int|
            0 <= a < n && seen@[a] && !pending@.contains(a as usize) && #[trigger] edge(
                g,
                a,
                b,
            ) implies seen@[b] by {
            if a == m {
                let k = choose|k: int| 0 <= k < g[a].len() && (#[trigger] g[a][k]) == b;
                assert(seen@[edges@[k] as int]);
            }
        }
    }
    assert forall|j: int| 0 <= j < seen@.len() implies (#[trigger] seen@[j]) == reaches(
        g,
        from as int,
        j,
    ) by {
        if reaches(g, from as int, j) {
            let p = choose|p: Seq<int>| walk(g, p, from as int, j);
            assert forall|a: int, b: int| 0 <= a < g.len() && seen@[a] && #[trigger] edge(
                g,
                a,
                b,
            ) implies seen@[b] by {
                assert(!pending@.contains(a as usize));
            }
            lemma_closed_holds_reached(g, seen@, from as int, p, j);
        }
    }
    seen
}

/// Whether a table of flags says which node reaches which.
pub open spec fn reach_table(g: Seq<Seq<usize>>, rows: Seq<Vec<bool>>) -> bool {
    rows.len() == g.len() && forall|i: int|
        0 <= i < rows.len() ==> (#[trigger] rows[i])@.len() == g.len() && forall|j: int|
            0 <= j < g.len() ==> (#[trigger] rows[i]@[j]) == reaches(g, i, j)
}

/// Which node reaches which.
pub fn reach_rows(graph: &Vec<Vec<usize>>) -> (r: Vec<Vec<bool>>)
    requires
        forall|i: int, k: int|
            0 <= i < graph@.len() && 0 <= k < graph@[i]@.len() ==> #[trigger] graph@[i]@[k]
                < graph@.len(),
    ensures
        reach_table(adjacency(graph@), r@),
{
    let ghost g = adjacency(graph@);
    let mut rows: Vec<Vec<bool>> = Vec::new();
    let mut i: usize = 0;
    while i < graph.len()
        invariant
            i <= graph@.len(),
            g == adjacency(graph@),
            rows@.len() == i,
            forall|i: int, k: int|
                0 <= i < graph@.len() && 0 <= k < graph@[i]@.len() ==> #[trigger] graph@[i]@[k]
                    < graph@.len(),
            forall|a: int|
                0 <= a < i ==> (#[trigger] rows@[a])@.len() == g.len() && forall|j: int|
                    0 <= j < g.len() ==> (#[trigger] rows@[a]@[j]) == reaches(g, a, j),
        decreases graph@.len() - i,
    {
        let row = reach_row(graph, i);
        rows.push(row);
        i = i + 1;
    }
    rows
}

/// How many nodes a node reaches.
pub open spec fn reach_count(g: Seq<Seq<usize>>, i: int) -> nat {
    count_set(Seq::new(g.len(), |j: int| reaches(g, i, j)))
}

/// A node that is reached, but does not reach back, reaches fewer nodes.
pub proof fn reached_reaches_fewer(g: Seq<Seq<usize>>, i: int, j: int)
    requires
        reaches(g, i, j),
        !reaches(g, j, i),
    ensures
        reach_count(g, j) < reach_count(g, i),
{
    reached_in_range(g, i, j);
    reaches_itself(g, i);
    let a = Seq::new(g.len(), |k: int| reaches(g, j, k));
    let b = Seq::new(g.len(), |k: int| reaches(g, i, k));
    assert forall|k: int| 0 <= k < a.len() && a[k] implies b[k] by {
        reaches_transitive(g, i, j, k);
    }
    assert(!a[i] && b[i]);
    count_is_monotone(a, b);
}

/// Nodes of one component reach equally many nodes.
pub proof fn component_reaches_alike(g: Seq<Seq<usize>>, i: int, j: int)
    requires
        same_component(g, i, j),
    ensures
        reach_count(g, i) == reach_count(g, j),
{
    let a = Seq::new(g.len(), |k: int| reaches(g, j, k));
    let b = Seq::new(g.len(), |k: int| reaches(g, i, k));
    assert forall|k: int| 0 <= k < a.len() implies a[k] == b[k] by {
        if a[k] {
            reaches_transitive(g, i, j, k);
        }
        if b[k] {
            reaches_transitive(g, j, i, k);
        }
    }
    assert(a =~= b);
}

/// How many flags of a row are set.
pub fn count_row(row: &Vec<bool>) -> (r: usize)
    ensures
        r == count_set(row@),
{
    let mut n: usize = 0;
    let mut i: usize = 0;
    assert(row@.take(0) =~= seq![]);
    while i < row.len()
        invariant
            i <= row@.len(),
            n == count_set(row@.take(i as int)),
            n <= i,
        decreases row@.len() - i,
    {
        assert(row@.take(i + 1).drop_last() =~= row@.take(i as int));
        if row[i] {
            n = n + 1;
        }
        i = i + 1;
    }
    assert(row@.take(row@.len() as int) =~= row@);
    n
}

} // verus!
