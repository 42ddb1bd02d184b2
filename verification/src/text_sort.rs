//! Sorting text.

use vstd::prelude::*;
use vstd::utf8::encode_utf8;

use crate::module_paths::texts;
use crate::order::{
    bytes_lt_irreflexive, bytes_lt_total, bytes_lt_transitive, text_before, text_bytes_injective,
    text_lt,
};

verus! {

broadcast use vstd::string::group_string_axioms;

/// `s` with `x` put behind the last piece that it does not precede.
pub open spec fn insert_text(s: Seq<Seq<char>>, x: Seq<char>) -> Seq<Seq<char>>
    decreases s.len(),
{
    if s.len() > 0 && text_lt(x, s.last()) {
        insert_text(s.drop_last(), x).push(s.last())
    } else {
        s.push(x)
    }
}

/// Pieces of text in order.
pub open spec fn sorted_texts(s: Seq<Seq<char>>) -> Seq<Seq<char>>
    decreases s.len(),
{
    if s.len() == 0 {
        s
    } else {
        insert_text(sorted_texts(s.drop_last()), s.last())
    }
}

/// Whether no piece of text precedes one before it.
pub open spec fn in_order(s: Seq<Seq<char>>) -> bool {
    forall|i: int, j: int| 0 <= i < j < s.len() ==> !text_lt(#[trigger] s[j], #[trigger] s[i])
}

proof fn lemma_insert_at(s: Seq<Seq<char>>, x: Seq<char>, at: int)
    requires
        0 <= at <= s.len(),
        forall|i: int| at <= i < s.len() ==> text_lt(x, #[trigger] s[i]),
        at > 0 ==> !text_lt(x, s[at - 1]),
    ensures
        insert_text(s, x) == s.insert(at, x),
    decreases s.len(),
{
    if at < s.len() {
        lemma_insert_at(s.drop_last(), x, at);
        assert(s.insert(at, x) =~= s.drop_last().insert(at, x).push(s.last()));
    } else {
        assert(s.insert(at, x) =~= s.push(x));
    }
}

/// Where text is not before other text, it is behind it or equal to it.
proof fn lemma_not_before(a: Seq<char>, b: Seq<char>)
    ensures
        !text_lt(a, b) ==> text_lt(b, a) || a == b,
        text_lt(a, b) ==> !text_lt(b, a),
{
    bytes_lt_total(encode_utf8(a), encode_utf8(b));
    if encode_utf8(a) == encode_utf8(b) {
        text_bytes_injective(a, b);
    }
    if text_lt(a, b) && text_lt(b, a) {
        bytes_lt_transitive(encode_utf8(a), encode_utf8(b), encode_utf8(a));
        bytes_lt_irreflexive(encode_utf8(a));
    }
}

proof fn lemma_insert_keeps(s: Seq<Seq<char>>, x: Seq<char>)
    requires
        in_order(s),
    ensures
        in_order(insert_text(s, x)),
        insert_text(s, x).to_multiset() == s.to_multiset().insert(x),
        insert_text(s, x).len() == s.len() + 1,
        insert_text(s, x).last() == x || s.len() > 0 && insert_text(s, x).last() == s.last(),
        forall|i: int|
            0 <= i <= s.len() ==> #[trigger] insert_text(s, x)[i] == x || s.contains(
                insert_text(s, x)[i],
            ),
    decreases s.len(),
{
    broadcast use vstd::seq_lib::group_to_multiset_ensures;

    let r = insert_text(s, x);
    if s.len() > 0 && text_lt(x, s.last()) {
        let t = s.drop_last();
        lemma_insert_keeps(t, x);
        let u = insert_text(t, x);
        assert forall|i: int, j: int| 0 <= i < j < r.len() implies !text_lt(
            #[trigger] r[j],
            #[trigger] r[i],
        ) by {
            assert(r[i] == u[i]);
            if j < u.len() {
                assert(r[j] == u[j]);
            } else if u[i] == x {
                lemma_not_before(x, s.last());
            } else {
                let k = t.index_of(u[i]);
                assert(s[k] == u[i]);
                assert(s[s.len() - 1] == r[j]);
            }
        }
        assert forall|i: int| 0 <= i <= s.len() implies #[trigger] insert_text(s, x)[i] == x
            || s.contains(insert_text(s, x)[i]) by {
            if i < u.len() {
                assert(r[i] == u[i]);
                if u[i] != x {
                    let k = t.index_of(u[i]);
                    assert(s[k] == u[i]);
                }
            } else {
                assert(s[s.len() - 1] == r[i]);
            }
        }
        assert(s =~= t.push(s.last()));
        assert(r.to_multiset() =~= s.to_multiset().insert(x));
    } else {
        assert forall|i: int, j: int| 0 <= i < j < r.len() implies !text_lt(
            #[trigger] r[j],
            #[trigger] r[i],
        ) by {
            assert(r[i] == s[i]);
            if j < s.len() {
                assert(r[j] == s[j]);
            } else if text_lt(x, s[i]) && i < s.len() - 1 {
                assert(!text_lt(s[s.len() - 1], s[i]));
                lemma_not_before(s.last(), s[i]);
                if s.last() != s[i] {
                    bytes_lt_transitive(
                        encode_utf8(x),
                        encode_utf8(s[i]),
                        encode_utf8(s.last()),
                    );
                }
            }
        }
        assert forall|i: int| 0 <= i <= s.len() implies #[trigger] insert_text(s, x)[i] == x
            || s.contains(insert_text(s, x)[i]) by {
            if i < s.len() {
                assert(s[i] == r[i]);
            }
        }
    }
}

/// Sorting orders the pieces and neither adds nor drops one.
pub proof fn sorting_orders(s: Seq<Seq<char>>)
    ensures
        in_order(sorted_texts(s)),
        sorted_texts(s).to_multiset() == s.to_multiset(),
        sorted_texts(s).len() == s.len(),
    decreases s.len(),
{
    broadcast use vstd::seq_lib::group_to_multiset_ensures;

    if s.len() > 0 {
        sorting_orders(s.drop_last());
        lemma_insert_keeps(sorted_texts(s.drop_last()), s.last());
        assert(s =~= s.drop_last().push(s.last()));
    }
}

/// The same pieces have one order.
pub proof fn order_is_unique(a: Seq<Seq<char>>, b: Seq<Seq<char>>)
    requires
        in_order(a),
        in_order(b),
        a.to_multiset() == b.to_multiset(),
    ensures
        a == b,
    decreases a.len(),
{
    broadcast use vstd::seq_lib::group_to_multiset_ensures;

    assert(a.len() == a.to_multiset().len());
    assert(b.len() == b.to_multiset().len());
    if a.len() > 0 {
        let x = a.last();
        let y = b.last();
        assert(a[a.len() - 1] == x);
        assert(b[b.len() - 1] == y);
        assert(a.contains(x));
        assert(b.contains(y));
        assert(a.to_multiset().count(x) > 0);
        assert(b.to_multiset().count(y) > 0);
        assert(b.contains(x));
        assert(a.contains(y));
        lemma_not_before(x, y);
        let i = a.index_of(y);
        let j = b.index_of(x);
        assert(!text_lt(x, y)) by {
            assert(a[i] == y);
        }
        assert(!text_lt(y, x)) by {
            assert(b[j] == x);
        }
        let c = a.drop_last();
        let d = b.drop_last();
        assert(a =~= c.push(x));
        assert(b =~= d.push(x));
        assert(c.to_multiset() =~= a.to_multiset().remove(x));
        assert(d.to_multiset() =~= b.to_multiset().remove(x));
        order_is_unique(c, d);
    } else {
        assert(a =~= b);
    }
}

/// The order in which pieces come makes no difference to how they are sorted.
pub proof fn sorting_forgets_order(a: Seq<Seq<char>>, b: Seq<Seq<char>>)
    requires
        a.to_multiset() == b.to_multiset(),
    ensures
        sorted_texts(a) == sorted_texts(b),
{
    sorting_orders(a);
    sorting_orders(b);
    order_is_unique(sorted_texts(a), sorted_texts(b));
}

/// Sort pieces of text.
pub fn sort_texts(items: Vec<String>) -> (r: Vec<String>)
    ensures
        texts(r@) == sorted_texts(texts(items@)),
{
    let ghost all = texts(items@);
    let mut rest: Vec<String> = items;
    let mut out: Vec<String> = Vec::new();
    assert(texts(out@) =~= sorted_texts(all.take(0)));
    while rest.len() > 0
        invariant
            rest@.len() <= all.len(),
            texts(rest@) == all.skip(all.len() - rest@.len()),
            texts(out@) == sorted_texts(all.take(all.len() - rest@.len())),
        decreases rest@.len(),
    {
        let ghost done = all.len() - rest@.len();
        assert(texts(rest@)[0] == all[done]);
        let ghost before = texts(rest@);
        let x = rest.remove(0);
        proof {
            assert(x@ == all[done]);
            assert(all.take(done + 1).drop_last() =~= all.take(done));
            assert(all.take(done + 1).last() == x@);
            assert(texts(rest@) =~= before.skip(1));
            assert(texts(rest@) =~= all.skip(done + 1));
        }
        let mut at: usize = out.len();
        while at > 0 && text_before(x.as_str(), out[at - 1].as_str())
            invariant
                at <= out@.len(),
                forall|i: int| at <= i < out@.len() ==> text_lt(x@, #[trigger] texts(out@)[i]),
            decreases at,
        {
            assert(texts(out@)[at - 1] == out@[at - 1]@);
            at = at - 1;
        }
        let ghost sorted = texts(out@);
        let ghost view = x@;
        proof {
            if at > 0 {
                assert(sorted[at - 1] == out@[at - 1]@);
            }
            lemma_insert_at(sorted, view, at as int);
        }
        out.insert(at, x);
        assert(texts(out@) =~= sorted.insert(at as int, view));
    }
    assert(all.take(all.len() as int) =~= all);
    out
}

} // verus!
