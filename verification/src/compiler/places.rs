//! Lines and columns of places in the source.

use vstd::prelude::*;
use vstd::utf8::encode_utf8;

use crate::compiler::functions::{chars_before, column_at_end, line_at_end, line_col};

verus! {

/// The number of characters that begin before a byte offset is the least whose bytes
/// reach it, or all of them.
pub proof fn offsets_count_the_characters_before(s: Seq<char>, offset: int)
    ensures
        ({
            let n = chars_before(s, offset) as int;
            &&& n <= s.len()
            &&& n < s.len() ==> offset <= encode_utf8(s.take(n)).len()
            &&& n > 0 ==> encode_utf8(s.take(n - 1)).len() < offset
        }),
    decreases s.len(),
{
    let n = chars_before(s, offset) as int;
    if s.len() == 0 || offset <= 0 {
        assert(s.take(0) =~= seq![]);
    } else {
        let rest = s.drop_first();
        let w = vstd::utf8::encode_scalar(s[0] as u32).len() as int;
        offsets_count_the_characters_before(rest, offset - w);
        let k = n - 1;
        assert(s.take(n).drop_first() =~= rest.take(k));
        assert(s.take(n)[0] == s[0]);
        if k > 0 {
            assert(s.take(k).drop_first() =~= rest.take(k - 1));
            assert(s.take(k)[0] == s[0]);
        } else {
            assert(s.take(k) =~= seq![]);
            assert(encode_utf8(s.take(k)).len() == 0);
        }
    }
}

/// The line is one more than the number of line feeds.
pub proof fn lines_are_counted_by_line_feeds(s: Seq<char>)
    ensures
        line_at_end(s) == 1 + s.filter(|c: char| c == '\n').len(),
    decreases s.len(),
{
    reveal(Seq::filter);
    if s.len() > 0 {
        lines_are_counted_by_line_feeds(s.drop_last());
    }
}

/// The column is one more than the number of characters behind the last line feed.
pub proof fn columns_are_counted_from_the_line_feed(s: Seq<char>)
    ensures
        ({
            let n = column_at_end(s) - 1;
            &&& 0 <= n <= s.len()
            &&& forall|i: int| s.len() - n <= i < s.len() ==> s[i] != '\n'
            &&& n < s.len() ==> s[s.len() - n - 1] == '\n'
        }),
    decreases s.len(),
{
    if s.len() > 0 && s.last() != '\n' {
        let rest = s.drop_last();
        columns_are_counted_from_the_line_feed(rest);
        let n = column_at_end(s) - 1;
        assert forall|i: int| s.len() - n <= i < s.len() implies s[i] != '\n' by {
            if i < rest.len() {
                assert(rest[i] == s[i]);
            }
        }
        if n < s.len() {
            assert(rest[rest.len() - (n - 1) - 1] == s[s.len() - n - 1]);
        }
    }
}

proof fn lemma_bytes_grow(s: Seq<char>, a: int, b: int)
    requires
        0 <= a < b <= s.len(),
    ensures
        encode_utf8(s.take(a)).len() < encode_utf8(s.take(b)).len(),
    decreases s.len(),
{
    let rest = s.drop_first();
    assert(s.take(b).drop_first() =~= rest.take(b - 1));
    assert(s.take(b)[0] == s[0]);
    if a > 0 {
        assert(s.take(a).drop_first() =~= rest.take(a - 1));
        assert(s.take(a)[0] == s[0]);
        lemma_bytes_grow(rest, a - 1, b - 1);
    } else {
        assert(s.take(a) =~= seq![]);
        assert(encode_utf8(s.take(a)).len() == 0);
    }
}

/// Where a character begins, the line and the column are those at the end of what
/// stands before it.
pub proof fn characters_are_where_the_text_before_ends(s: Seq<char>, k: int)
    requires
        0 <= k <= s.len(),
    ensures
        line_col(s, encode_utf8(s.take(k)).len() as int) == (
            line_at_end(s.take(k)),
            column_at_end(s.take(k)),
        ),
{
    let offset = encode_utf8(s.take(k)).len() as int;
    let n = chars_before(s, offset) as int;
    offsets_count_the_characters_before(s, offset);
    if n < k {
        lemma_bytes_grow(s, n, k);
    } else if n > k + 1 {
        lemma_bytes_grow(s, k, n - 1);
    }
}

} // verus!
