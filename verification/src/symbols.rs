//! Names that are put together, and taken apart again.

use vstd::prelude::*;

use crate::compiler::context::impl_symbol;
use crate::compiler::repl::split_separators;
use crate::digest::{hex_digit, hex_text, hex_value};
use crate::disk_store::diff::{dispatch_symbol, head_end};
use crate::module_paths::{appended, joined};
use crate::nominal::{is_hyphenated_uuid, uuid_text};

verus! {

// ── dispatch symbols ────────────────────────────────────────────────────────

proof fn lemma_hex_digit(n: int)
    requires
        0 <= n < 16,
    ensures
        hex_value(hex_digit(n)) == Some(n),
        hex_digit(n) != ':',
{
}

/// The text of an identity is the hyphenated form of a uuid.
pub proof fn identities_are_written_as_uuids(bytes: Seq<u8>)
    requires
        bytes.len() == 16,
    ensures
        is_hyphenated_uuid(uuid_text(bytes)),
        forall|i: int| 0 <= i < 36 ==> uuid_text(bytes)[i] != ':',
{
    let hex = hex_text(bytes);
    let t = uuid_text(bytes);
    assert forall|k: int| 0 <= k < 32 implies hex_value(#[trigger] hex[k]) is Some && hex[k]
        != ':' by {
        let b = bytes[k / 2] as int;
        lemma_hex_digit(b / 16);
        lemma_hex_digit(b % 16);
    }
    assert forall|i: int| 0 <= i < 36 implies (if i == 8 || i == 13 || i == 18 || i == 23 {
        #[trigger] t[i] == '-'
    } else {
        hex_value(t[i]) is Some
    }) && t[i] != ':' by {
        if i < 8 {
            assert(t[i] == hex[i]);
        } else if 8 < i < 13 {
            assert(t[i] == hex[i - 1]);
        } else if 13 < i < 18 {
            assert(t[i] == hex[i - 2]);
        } else if 18 < i < 23 {
            assert(t[i] == hex[i - 3]);
        } else if i > 23 {
            assert(t[i] == hex[i - 4]);
        }
    }
}

proof fn lemma_head(s: Seq<char>, at: int, from: int)
    requires
        0 <= from <= at,
        at + 1 < s.len(),
        s[at] == ':' && s[at + 1] == ':',
        forall|i: int| 0 <= i < at ==> s[i] != ':',
    ensures
        head_end(s, from) == at,
    decreases at - from,
{
    if from < at {
        lemma_head(s, at, from + 1);
    }
}

/// The symbol under which a default implementation of a method is bound is one that a
/// diff of names leaves out, whatever the method is called.
pub proof fn method_symbols_are_dispatch_symbols(uuid: Seq<u8>, method: Seq<char>)
    requires
        uuid.len() == 16,
    ensures
        dispatch_symbol(impl_symbol(uuid, method)),
{
    reveal_strlit("::");
    let u = uuid_text(uuid);
    let s = impl_symbol(uuid, method);
    identities_are_written_as_uuids(uuid);
    assert(s[36] == ':' && s[37] == ':');
    assert forall|i: int| 0 <= i < 36 implies s[i] != ':' by {
        assert(s[i] == u[i]);
    }
    lemma_head(s, 36, 0);
    assert(s.subrange(0, 36) =~= u);
}

/// Different methods of an ability, and methods of different abilities, have
/// different symbols.
pub proof fn methods_have_symbols_of_their_own(
    a: Seq<u8>,
    m: Seq<char>,
    b: Seq<u8>,
    n: Seq<char>,
)
    requires
        a.len() == 16,
        b.len() == 16,
        impl_symbol(a, m) == impl_symbol(b, n),
    ensures
        a == b && m == n,
{
    reveal_strlit("::");
    let s = impl_symbol(a, m);
    let t = impl_symbol(b, n);
    let u = uuid_text(a);
    let v = uuid_text(b);
    assert(s.skip(38) =~= m && t.skip(38) =~= n);
    assert(s.subrange(0, 36) =~= u && t.subrange(0, 36) =~= v);
    let x = hex_text(a);
    let y = hex_text(b);
    assert forall|k: int| 0 <= k < 32 implies x[k] == y[k] by {
        let i = if k < 8 {
            k
        } else if k < 12 {
            k + 1
        } else if k < 16 {
            k + 2
        } else if k < 20 {
            k + 3
        } else {
            k + 4
        };
        assert(u[i] == x[k] && v[i] == y[k]);
    }
    assert forall|j: int| 0 <= j < 16 implies a[j] == b[j] by {
        let p = a[j] as int;
        let q = b[j] as int;
        lemma_hex_digit(p / 16);
        lemma_hex_digit(p % 16);
        lemma_hex_digit(q / 16);
        lemma_hex_digit(q % 16);
        assert(x[2 * j] == y[2 * j] && x[2 * j + 1] == y[2 * j + 1]);
        assert(p == 16 * (p / 16) + p % 16);
        assert(q == 16 * (q / 16) + q % 16);
    }
    assert(a =~= b);
}

// ── paths ───────────────────────────────────────────────────────────────────

/// Joining a name and others is the same as appending the others to it.
pub proof fn joining_is_appending(first: Seq<char>, rest: Seq<Seq<char>>)
    ensures
        joined(seq![first] + rest) == appended(first, rest),
    decreases rest.len(),
{
    let all = seq![first] + rest;
    if rest.len() > 0 {
        joining_is_appending(first, rest.drop_last());
        assert(all.drop_last() =~= seq![first] + rest.drop_last());
    }
}

/// What a path is split into, joined, is the path.
pub proof fn joining_undoes_splitting(s: Seq<char>, from: int, i: int)
    requires
        0 <= from <= i <= s.len(),
    ensures
        split_separators(s, from, i).len() > 0,
        joined(split_separators(s, from, i)) == s.skip(from),
    decreases s.len() - i,
{
    reveal_strlit("::");
    let parts = split_separators(s, from, i);
    if i + 1 < s.len() && s[i] == ':' && s[i + 1] == ':' {
        joining_undoes_splitting(s, i + 2, i + 2);
        let rest = split_separators(s, i + 2, i + 2);
        let a = s.subrange(from, i);
        let tail = rest.drop_first();
        assert(rest =~= seq![rest[0]] + tail);
        joining_is_appending(rest[0], tail);
        assert(parts =~= seq![a] + rest);
        joining_is_appending(a, rest);
        lemma_appended_cons(a, rest[0], tail);
        assert(a + "::"@ + s.skip(i + 2) =~= s.skip(from));
    } else if i < s.len() {
        joining_undoes_splitting(s, from, i + 1);
    } else {
        assert(parts =~= seq![s.skip(from)]);
    }
}

proof fn lemma_appended_cons(a: Seq<char>, b: Seq<char>, rest: Seq<Seq<char>>)
    ensures
        appended(a, seq![b] + rest) == a + "::"@ + appended(b, rest),
    decreases rest.len(),
{
    let all = seq![b] + rest;
    if rest.len() > 0 {
        lemma_appended_cons(a, b, rest.drop_last());
        assert(all.drop_last() =~= seq![b] + rest.drop_last());
        assert(appended(a, all) =~= a + "::"@ + appended(b, rest));
    } else {
        assert(all.drop_last() =~= seq![]);
        assert(appended(a, all.drop_last()) == a);
        assert(appended(a, all) =~= a + "::"@ + appended(b, rest));
    }
}

} // verus!
