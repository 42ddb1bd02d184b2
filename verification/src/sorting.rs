//! Stable sorting by a key made of byte strings.

use vstd::prelude::*;

use crate::order::{bytes_lt, bytes_lt_irreflexive, bytes_lt_total, bytes_lt_transitive};

verus! {

/// Lexicographic order on lists of byte strings: the order of a tuple of text.
pub open spec fn ranks_lt(a: Seq<Seq<u8>>, b: Seq<Seq<u8>>) -> bool
    decreases a.len(),
{
    if b.len() == 0 {
        false
    } else if a.len() == 0 {
        true
    } else if a[0] != b[0] {
        bytes_lt(a[0], b[0])
    } else {
        ranks_lt(a.drop_first(), b.drop_first())
    }
}

/// No rank precedes itself.
pub proof fn ranks_lt_irreflexive(a: Seq<Seq<u8>>)
    ensures
        !ranks_lt(a, a),
    decreases a.len(),
{
    if a.len() > 0 {
        ranks_lt_irreflexive(a.drop_first());
    }
}

/// The order of ranks is transitive.
pub proof fn ranks_lt_transitive(a: Seq<Seq<u8>>, b: Seq<Seq<u8>>, c: Seq<Seq<u8>>)
    requires
        ranks_lt(a, b),
        ranks_lt(b, c),
    ensures
        ranks_lt(a, c),
    decreases a.len(),
{
    if a.len() > 0 && b.len() > 0 && c.len() > 0 {
        if a[0] == b[0] && b[0] == c[0] {
            ranks_lt_transitive(a.drop_first(), b.drop_first(), c.drop_first());
        } else if a[0] != b[0] && b[0] != c[0] {
            bytes_lt_transitive(a[0], b[0], c[0]);
            bytes_lt_irreflexive(a[0]);
        }
    }
}

/// Of two different ranks one precedes the other.
pub proof fn ranks_lt_total(a: Seq<Seq<u8>>, b: Seq<Seq<u8>>)
    ensures
        ranks_lt(a, b) || ranks_lt(b, a) || a == b,
    decreases a.len(),
{
    if a.len() == 0 {
        if b.len() == 0 {
            assert(a =~= b);
        }
    } else if b.len() > 0 {
        if a[0] == b[0] {
            ranks_lt_total(a.drop_first(), b.drop_first());
            if a.drop_first() == b.drop_first() {
                assert(a =~= seq![a[0]] + a.drop_first());
                assert(b =~= seq![b[0]] + b.drop_first());
            }
        } else {
            bytes_lt_total(a[0], b[0]);
        }
    }
}

/// A rank of one byte string is ordered by it.
pub proof fn single_ranks(a: Seq<u8>, b: Seq<u8>)
    ensures
        ranks_lt(seq![a], seq![b]) == bytes_lt(a, b),
{
    assert(seq![a].drop_first() =~= Seq::<Seq<u8>>::empty());
    assert(seq![b].drop_first() =~= Seq::<Seq<u8>>::empty());
    reveal_with_fuel(ranks_lt, 2);
    bytes_lt_irreflexive(a);
}

/// A value with a rank to sort it by.
pub trait Ranked: Sized {
    /// What the value is sorted by.
    spec fn rank(&self) -> Seq<Seq<u8>>;

    /// Whether this value's rank precedes another's.
    fn ranks_before(&self, other: &Self) -> (r: bool)
        ensures
            r == ranks_lt(self.rank(), other.rank()),
    ;
}

/// `s` with `x` put behind the last value that it does not precede.
pub open spec fn insert_ranked<T: Ranked>(s: Seq<T>, x: T) -> Seq<T>
    decreases s.len(),
{
    if s.len() > 0 && ranks_lt(x.rank(), s.last().rank()) {
        insert_ranked(s.drop_last(), x).push(s.last())
    } else {
        s.push(x)
    }
}

/// `s` in order of rank, values of one rank in the order they came in.
pub open spec fn sorted<T: Ranked>(s: Seq<T>) -> Seq<T>
    decreases s.len(),
{
    if s.len() == 0 {
        s
    } else {
        insert_ranked(sorted(s.drop_last()), s.last())
    }
}

proof fn lemma_insert_in_step<A: Ranked, B: Ranked>(
    a: Seq<A>,
    b: Seq<B>,
    x: A,
    y: B,
    rel: spec_fn(A, B) -> bool,
)
    requires
        a.len() == b.len(),
        forall|i: int|
            0 <= i < a.len() ==> rel(#[trigger] a[i], b[i]) && a[i].rank() == b[i].rank(),
        rel(x, y),
        x.rank() == y.rank(),
    ensures
        insert_ranked(a, x).len() == insert_ranked(b, y).len(),
        forall|i: int|
            0 <= i < insert_ranked(a, x).len() ==> rel(
                #[trigger] insert_ranked(a, x)[i],
                insert_ranked(b, y)[i],
            ) && insert_ranked(a, x)[i].rank() == insert_ranked(b, y)[i].rank(),
    decreases a.len(),
{
    if a.len() > 0 {
        let last = a.len() - 1;
        assert(rel(a[last], b[last]));
        if ranks_lt(x.rank(), a.last().rank()) {
            lemma_insert_in_step(a.drop_last(), b.drop_last(), x, y, rel);
        }
    }
}

/// Two lists that agree in rank, value by value, are sorted in step: what was
/// related before is at the same place afterwards.
pub proof fn sorted_in_step<A: Ranked, B: Ranked>(
    a: Seq<A>,
    b: Seq<B>,
    rel: spec_fn(A, B) -> bool,
)
    requires
        a.len() == b.len(),
        forall|i: int|
            0 <= i < a.len() ==> rel(#[trigger] a[i], b[i]) && a[i].rank() == b[i].rank(),
    ensures
        sorted(a).len() == sorted(b).len(),
        forall|i: int|
            0 <= i < sorted(a).len() ==> rel(#[trigger] sorted(a)[i], sorted(b)[i])
                && sorted(a)[i].rank() == sorted(b)[i].rank(),
    decreases a.len(),
{
    if a.len() > 0 {
        let last = a.len() - 1;
        assert(rel(a[last], b[last]));
        sorted_in_step(a.drop_last(), b.drop_last(), rel);
        lemma_insert_in_step(
            sorted(a.drop_last()),
            sorted(b.drop_last()),
            a.last(),
            b.last(),
            rel,
        );
    }
}

/// Whether no value precedes one before it.
pub open spec fn is_ranked<T: Ranked>(s: Seq<T>) -> bool {
    forall|i: int, j: int|
        0 <= i < j < s.len() ==> !ranks_lt((#[trigger] s[j]).rank(), (#[trigger] s[i]).rank())
}

proof fn lemma_insert_at<T: Ranked>(s: Seq<T>, x: T, at: int)
    requires
        0 <= at <= s.len(),
        forall|i: int| at <= i < s.len() ==> ranks_lt(x.rank(), (#[trigger] s[i]).rank()),
        at > 0 ==> !ranks_lt(x.rank(), s[at - 1].rank()),
    ensures
        insert_ranked(s, x) == s.insert(at, x),
    decreases s.len(),
{
    if at < s.len() {
        lemma_insert_at(s.drop_last(), x, at);
        assert(s.insert(at, x) =~= s.drop_last().insert(at, x).push(s.last()));
    } else {
        assert(s.insert(at, x) =~= s.push(x));
    }
}

proof fn lemma_insert_ranked<T: Ranked>(s: Seq<T>, x: T)
    requires
        is_ranked(s),
    ensures
        is_ranked(insert_ranked(s, x)),
        insert_ranked(s, x).to_multiset() == s.to_multiset().insert(x),
        insert_ranked(s, x).len() == s.len() + 1,
        forall|i: int|
            0 <= i < s.len() + 1 ==> (#[trigger] insert_ranked(s, x)[i]) == x || s.contains(
                insert_ranked(s, x)[i],
            ),
    decreases s.len(),
{
    broadcast use vstd::seq_lib::group_to_multiset_ensures;

    if s.len() > 0 && ranks_lt(x.rank(), s.last().rank()) {
        let t = s.drop_last();
        lemma_insert_ranked(t, x);
        let u = insert_ranked(t, x);
        let r = u.push(s.last());
        assert forall|i: int, j: int| 0 <= i < j < r.len() implies !ranks_lt(
            (#[trigger] r[j]).rank(),
            (#[trigger] r[i]).rank(),
        ) by {
            if j < u.len() {
                assert(r[j] == u[j]);
                assert(r[i] == u[i]);
            } else {
                assert(r[i] == u[i]);
                if u[i] == x {
                    if ranks_lt(s.last().rank(), x.rank()) {
                        ranks_lt_transitive(x.rank(), s.last().rank(), x.rank());
                        ranks_lt_irreflexive(x.rank());
                    }
                } else {
                    let k = t.index_of(u[i]);
                    assert(s[k] == u[i]);
                    assert(s[s.len() - 1] == s.last());
                }
            }
        }
        assert forall|i: int| 0 <= i < s.len() + 1 implies (#[trigger] insert_ranked(s, x)[i]) == x
            || s.contains(insert_ranked(s, x)[i]) by {
            if i < u.len() {
                assert(r[i] == u[i]);
                if u[i] != x {
                    let k = t.index_of(u[i]);
                    assert(s[k] == u[i]);
                }
            } else {
                assert(s[s.len() - 1] == r[i]);
            }
        }
        assert(s =~= t.push(s.last()));
        assert(r.to_multiset() =~= s.to_multiset().insert(x));
    } else {
        let r = s.push(x);
        assert forall|i: int, j: int| 0 <= i < j < r.len() implies !ranks_lt(
            (#[trigger] r[j]).rank(),
            (#[trigger] r[i]).rank(),
        ) by {
            if j == s.len() && i < s.len() {
                assert(r[i] == s[i]);
                assert(r[j] == x);
                if ranks_lt(x.rank(), s[i].rank()) {
                    if i < s.len() - 1 {
                        assert(!ranks_lt(s[s.len() - 1].rank(), s[i].rank()));
                        ranks_lt_total(s.last().rank(), s[i].rank());
                        if s.last().rank() != s[i].rank() {
                            ranks_lt_transitive(x.rank(), s[i].rank(), s.last().rank());
                        }
                    }
                }
            } else {
                assert(r[i] == s[i]);
                assert(r[j] == s[j]);
            }
        }
        assert forall|i: int| 0 <= i < s.len() + 1 implies (#[trigger] insert_ranked(s, x)[i]) == x
            || s.contains(insert_ranked(s, x)[i]) by {
            if i < s.len() {
                assert(s[i] == r[i]);
            }
        }
    }
}

/// Sorting orders the values by rank and neither adds nor drops one.
pub proof fn sorted_is_ranked<T: Ranked>(s: Seq<T>)
    ensures
        is_ranked(sorted(s)),
        sorted(s).to_multiset() == s.to_multiset(),
        sorted(s).len() == s.len(),
    decreases s.len(),
{
    broadcast use vstd::seq_lib::group_to_multiset_ensures;

    if s.len() > 0 {
        sorted_is_ranked(s.drop_last());
        lemma_insert_ranked(sorted(s.drop_last()), s.last());
        assert(s =~= s.drop_last().push(s.last()));
    }
}

/// The ranks of some values.
pub open spec fn ranks<T: Ranked>(s: Seq<T>) -> Seq<Seq<Seq<u8>>> {
    s.map_values(|x: T| x.rank())
}

/// A list in another order has the same values of a function, in another order.
pub proof fn mapping_keeps_permutation<A, B>(a: Seq<A>, b: Seq<A>, f: spec_fn(A) -> B)
    requires
        a.to_multiset() == b.to_multiset(),
    ensures
        a.map_values(f).to_multiset() == b.map_values(f).to_multiset(),
    decreases a.len(),
{
    broadcast use vstd::seq_lib::group_to_multiset_ensures;

    assert(a.len() == a.to_multiset().len() && b.len() == b.to_multiset().len());
    if a.len() > 0 {
        let x = a.last();
        assert(a.contains(x));
        assert(b.to_multiset().count(x) > 0);
        assert(b.contains(x));
        let j = b.index_of(x);
        let c = a.drop_last();
        let d = b.remove(j);
        assert(a =~= c.push(x));
        assert(c.to_multiset() =~= a.to_multiset().remove(x));
        assert(d.to_multiset() =~= b.to_multiset().remove(x));
        mapping_keeps_permutation(c, d, f);
        assert(a.map_values(f) =~= c.map_values(f).push(f(x)));
        assert(b.map_values(f).remove(j) =~= d.map_values(f));
        assert(b.map_values(f)[j] == f(x));
        assert(a.map_values(f).to_multiset() =~= c.map_values(f).to_multiset().insert(f(x)));
        assert(b.map_values(f).contains(f(x)));
        assert(b.map_values(f).to_multiset().count(f(x)) > 0);
        assert(d.map_values(f).to_multiset() =~= b.map_values(f).to_multiset().remove(f(x)));
        assert(a.map_values(f).to_multiset() =~= b.map_values(f).to_multiset());
    } else {
        assert(a =~= b);
    }
}

/// Lists that have the same ranks, in whatever order, have them in the same order
/// once they are sorted.
pub proof fn sorting_forgets_the_order<T: Ranked>(a: Seq<T>, b: Seq<T>)
    requires
        ranks(a).to_multiset() == ranks(b).to_multiset(),
    ensures
        ranks(sorted(a)) == ranks(sorted(b)),
{
    let f = |x: T| x.rank();
    sorted_is_ranked(a);
    sorted_is_ranked(b);
    mapping_keeps_permutation(sorted(a), a, f);
    mapping_keeps_permutation(sorted(b), b, f);
    let x = ranks(sorted(a));
    let y = ranks(sorted(b));
    let leq = |r: Seq<Seq<u8>>, s: Seq<Seq<u8>>| !ranks_lt(s, r);
    assert(vstd::relations::sorted_by(x, leq)) by {
        assert forall|i: int, j: int| 0 <= i < j < x.len() implies #[trigger] leq(x[i], x[j]) by {
            assert(!ranks_lt(sorted(a)[j].rank(), sorted(a)[i].rank()));
        }
    }
    assert(vstd::relations::sorted_by(y, leq)) by {
        assert forall|i: int, j: int| 0 <= i < j < y.len() implies #[trigger] leq(y[i], y[j]) by {
            assert(!ranks_lt(sorted(b)[j].rank(), sorted(b)[i].rank()));
        }
    }
    assert(vstd::relations::total_ordering(leq)) by {
        assert forall|r: Seq<Seq<u8>>| #[trigger] leq(r, r) by {
            ranks_lt_irreflexive(r);
        }
        assert forall|r: Seq<Seq<u8>>, s: Seq<Seq<u8>>| #[trigger] leq(r, s) && #[trigger] leq(
            s,
            r,
        ) implies r == s by {
            ranks_lt_total(r, s);
        }
        assert forall|r: Seq<Seq<u8>>, s: Seq<Seq<u8>>, t: Seq<Seq<u8>>| #[trigger]
            leq(r, s) && #[trigger] leq(s, t) implies leq(r, t) by {
            ranks_lt_total(r, s);
            ranks_lt_total(s, t);
            if ranks_lt(t, r) {
                if r != s && s != t {
                    ranks_lt_transitive(r, s, t);
                    ranks_lt_transitive(t, r, t);
                    ranks_lt_irreflexive(t);
                }
            }
        }
        assert forall|r: Seq<Seq<u8>>, s: Seq<Seq<u8>>| #[trigger] leq(r, s) || #[trigger] leq(
            s,
            r,
        ) by {
            if ranks_lt(s, r) && ranks_lt(r, s) {
                ranks_lt_transitive(s, r, s);
                ranks_lt_irreflexive(s);
            }
        }
    }
    vstd::seq_lib::lemma_sorted_unique(x, y, leq);
}

/// Sort by rank; values of one rank keep their order.
pub fn stable_sort<T: Ranked>(items: Vec<T>) -> (r: Vec<T>)
    ensures
        r@ == sorted(items@),
{
    let ghost all = items@;
    let mut rest: Vec<T> = items;
    let mut out: Vec<T> = Vec::new();
    assert(all.take(0) =~= Seq::<T>::empty());
    while rest.len() > 0
        invariant
            rest@.len() <= all.len(),
            rest@ == all.skip(all.len() - rest@.len()),
            out@ == sorted(all.take(all.len() - rest@.len())),
        decreases rest@.len(),
    {
        let ghost done = all.len() - rest@.len();
        let x = rest.remove(0);
        proof {
            assert(x == all[done]);
            assert(all.take(done + 1).drop_last() =~= all.take(done));
            assert(all.take(done + 1).last() == x);
            assert(rest@ =~= all.skip(done + 1));
        }
        let mut at: usize = out.len();
        while at > 0 && x.ranks_before(&out[at - 1])
            invariant
                at <= out@.len(),
                forall|i: int| at <= i < out@.len() ==> ranks_lt(x.rank(), (#[trigger] out@[i]).rank()),
            decreases at,
        {
            at = at - 1;
        }
        proof {
            lemma_insert_at(out@, x, at as int);
        }
        out.insert(at, x);
    }
    assert(all.take(all.len() as int) =~= all);
    out
}

// ── sorting positions by key ────────────────────────────────────────────────

/// `s` with the position `x` put behind the last one whose key it does not
/// precede.
pub open spec fn insert_position(keys: Seq<Seq<u8>>, s: Seq<int>, x: int) -> Seq<int>
    decreases s.len(),
{
    if s.len() > 0 && bytes_lt(keys[x], keys[s.last()]) {
        insert_position(keys, s.drop_last(), x).push(s.last())
    } else {
        s.push(x)
    }
}

/// Positions in order of their keys; those of one key keep their order.
pub open spec fn sorted_positions(keys: Seq<Seq<u8>>, s: Seq<int>) -> Seq<int>
    decreases s.len(),
{
    if s.len() == 0 {
        s
    } else {
        insert_position(keys, sorted_positions(keys, s.drop_last()), s.last())
    }
}

/// Some positions as integers.
pub open spec fn positions(s: Seq<usize>) -> Seq<int> {
    Seq::new(s.len(), |i: int| s[i] as int)
}

/// The bytes of some keys.
pub open spec fn key_views(keys: Seq<Vec<u8>>) -> Seq<Seq<u8>> {
    Seq::new(keys.len(), |i: int| keys[i]@)
}

proof fn lemma_insert_position_at(keys: Seq<Seq<u8>>, s: Seq<int>, x: int, at: int)
    requires
        0 <= at <= s.len(),
        forall|i: int| at <= i < s.len() ==> bytes_lt(keys[x], keys[#[trigger] s[i]]),
        at > 0 ==> !bytes_lt(keys[x], keys[s[at - 1]]),
    ensures
        insert_position(keys, s, x) == s.insert(at, x),
    decreases s.len(),
{
    if at < s.len() {
        lemma_insert_position_at(keys, s.drop_last(), x, at);
        assert(s.insert(at, x) =~= s.drop_last().insert(at, x).push(s.last()));
    } else {
        assert(s.insert(at, x) =~= s.push(x));
    }
}

/// Inserting a position adds it and nothing else.
pub proof fn insert_position_contents(keys: Seq<Seq<u8>>, s: Seq<int>, x: int)
    ensures
        insert_position(keys, s, x).len() == s.len() + 1,
        forall|y: int| #[trigger]
            insert_position(keys, s, x).contains(y) <==> y == x || s.contains(y),
        s.no_duplicates() && !s.contains(x) ==> insert_position(keys, s, x).no_duplicates(),
    decreases s.len(),
{
    if s.len() > 0 && bytes_lt(keys[x], keys[s.last()]) {
        let t = s.drop_last();
        insert_position_contents(keys, t, x);
        let u = insert_position(keys, t, x);
        let r = u.push(s.last());
        assert forall|y: int| #[trigger] r.contains(y) <==> y == x || s.contains(y) by {
            if r.contains(y) {
                let i = r.index_of(y);
                if i < u.len() {
                    assert(u[i] == y);
                    assert(u.contains(y));
                    if t.contains(y) {
                        let k = t.index_of(y);
                        assert(s[k] == y);
                    }
                } else {
                    assert(s[s.len() - 1] == y);
                }
            }
            if y == x {
                assert(u.contains(x));
                let i = u.index_of(x);
                assert(r[i] == x);
            }
            if s.contains(y) {
                let k = s.index_of(y);
                if k < t.len() {
                    assert(t[k] == y);
                    assert(t.contains(y));
                    assert(u.contains(y));
                    let i = u.index_of(y);
                    assert(r[i] == y);
                } else {
                    assert(r[u.len() as int] == y);
                }
            }
        }
        if s.no_duplicates() && !s.contains(x) {
            assert(!t.contains(x)) by {
                if t.contains(x) {
                    let k = t.index_of(x);
                    assert(s[k] == x);
                }
            }
            assert(t.no_duplicates());
            assert(!u.contains(s.last())) by {
                if u.contains(s.last()) {
                    if t.contains(s.last()) {
                        let k = t.index_of(s.last());
                        assert(s[k] == s[s.len() - 1]);
                    } else {
                        assert(s[s.len() - 1] == x);
                        assert(s.contains(x));
                    }
                }
            }
            assert(r.no_duplicates()) by {
                assert forall|i: int, j: int| 0 <= i < r.len() && 0 <= j < r.len() && i != j implies r[i]
                    != r[j] by {
                    if i < u.len() && j < u.len() {
                        assert(u[i] != u[j]);
                    } else if i < u.len() {
                        assert(u.contains(u[i]));
                    } else {
                        assert(u.contains(u[j]));
                    }
                }
            }
        }
    } else {
        let r = s.push(x);
        assert forall|y: int| #[trigger] r.contains(y) <==> y == x || s.contains(y) by {
            if r.contains(y) {
                let i = r.index_of(y);
                if i < s.len() {
                    assert(s[i] == y);
                }
            }
            if s.contains(y) {
                let i = s.index_of(y);
                assert(r[i] == y);
            }
            assert(r[s.len() as int] == x);
        }
        if s.no_duplicates() && !s.contains(x) {
            assert forall|i: int, j: int| 0 <= i < r.len() && 0 <= j < r.len() && i != j implies r[i]
                != r[j] by {
                if i < s.len() && j < s.len() {
                    assert(s[i] != s[j]);
                } else if i < s.len() {
                    assert(s.contains(s[i]));
                } else {
                    assert(s.contains(s[j]));
                }
            }
        }
    }
}

/// Sorting positions neither adds nor drops one.
pub proof fn sorted_positions_contents(keys: Seq<Seq<u8>>, s: Seq<int>)
    ensures
        sorted_positions(keys, s).len() == s.len(),
        forall|y: int| #[trigger] sorted_positions(keys, s).contains(y) <==> s.contains(y),
        s.no_duplicates() ==> sorted_positions(keys, s).no_duplicates(),
    decreases s.len(),
{
    if s.len() > 0 {
        let t = s.drop_last();
        sorted_positions_contents(keys, t);
        insert_position_contents(keys, sorted_positions(keys, t), s.last());
        assert forall|y: int| #[trigger] sorted_positions(keys, s).contains(y) <==> s.contains(y) by {
            if s.contains(y) {
                let k = s.index_of(y);
                if k < t.len() {
                    assert(t[k] == y);
                    assert(t.contains(y));
                }
            }
            if t.contains(y) {
                let k = t.index_of(y);
                assert(s[k] == y);
            }
            assert(s[s.len() - 1] == s.last());
        }
        if s.no_duplicates() {
            assert(!t.contains(s.last())) by {
                if t.contains(s.last()) {
                    let k = t.index_of(s.last());
                    assert(s[k] == s[s.len() - 1]);
                }
            }
        }
    }
}

/// Sort positions by their keys; those of one key keep their order.
pub fn sort_positions(keys: &Vec<Vec<u8>>, s: Vec<usize>) -> (r: Vec<usize>)
    requires
        forall|i: int| 0 <= i < s@.len() ==> (#[trigger] s@[i]) < keys@.len(),
    ensures
        positions(r@) == sorted_positions(key_views(keys@), positions(s@)),
        forall|i: int| 0 <= i < r@.len() ==> (#[trigger] r@[i]) < keys@.len(),
{
    let ghost ks = key_views(keys@);
    let ghost all = positions(s@);
    let mut out: Vec<usize> = Vec::new();
    let mut n: usize = 0;
    assert(all.take(0) =~= seq![]);
    assert(positions(out@) =~= seq![]);
    while n < s.len()
        invariant
            n <= s@.len(),
            ks == key_views(keys@),
            all == positions(s@),
            forall|i: int| 0 <= i < s@.len() ==> (#[trigger] s@[i]) < keys@.len(),
            forall|i: int| 0 <= i < out@.len() ==> (#[trigger] out@[i]) < keys@.len(),
            positions(out@) == sorted_positions(ks, all.take(n as int)),
        decreases s@.len() - n,
    {
        let x: usize = s[n];
        let ghost before = positions(out@);
        proof {
            assert(all.take(n + 1).drop_last() =~= all.take(n as int));
            assert(all.take(n + 1).last() == x as int);
        }
        let mut at: usize = out.len();
        while at > 0 && crate::order::bytes_before(keys[x].as_slice(), keys[out[at - 1]].as_slice())
            invariant
                at <= out@.len(),
                x < keys@.len(),
                ks == key_views(keys@),
                before == positions(out@),
                forall|i: int| 0 <= i < out@.len() ==> (#[trigger] out@[i]) < keys@.len(),
                forall|i: int|
                    at <= i < before.len() ==> bytes_lt(ks[x as int], ks[#[trigger] before[i]]),
            decreases at,
        {
            at = at - 1;
        }
        proof {
            lemma_insert_position_at(ks, before, x as int, at as int);
        }
        let ghost was = out@;
        out.insert(at, x);
        proof {
            assert(positions(out@) =~= before.insert(at as int, x as int));
            assert forall|i: int| 0 <= i < out@.len() implies (#[trigger] out@[i]) < keys@.len() by {
                if i < at {
                    assert(out@[i] == was[i]);
                } else if i > at {
                    assert(out@[i] == was[i - 1]);
                }
            }
        }
        n = n + 1;
    }
    assert(all.take(all.len() as int) =~= all);
    out
}

} // verus!
