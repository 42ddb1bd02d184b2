//! Text as a sequence of characters: taking it apart, putting it together,
//! and writing numbers.

use vstd::prelude::*;
use vstd::string::*;

use crate::wire::contents;

verus! {

broadcast use group_string_axioms;

/// `String::push` appends one character.
pub assume_specification[ std::string::String::push ](s: &mut std::string::String, ch: char)
    ensures
        final(s)@ == old(s)@.push(ch),
;

/// The characters of a piece of text.
pub fn chars_of(text: &str) -> (r: Vec<char>)
    ensures
        r@ == text@,
{
    let mut out: Vec<char> = Vec::new();
    for c in it: text.chars()
        invariant
            it.seq() == text@,
            out@ == text@.take(it.index() as int),
    {
        out.push(c);
        assert(out@ =~= text@.take(it.index() + 1));
    }
    assert(out@ =~= text@);
    out
}

/// The text made of some characters.
pub fn text_of(chars: &[char]) -> (r: String)
    ensures
        r@ == chars@,
{
    let mut out = String::new();
    let mut i: usize = 0;
    assert(chars@.take(0) =~= Seq::<char>::empty());
    while i < chars.len()
        invariant
            i <= chars@.len(),
            out@ == chars@.take(i as int),
        decreases chars@.len() - i,
    {
        out.push(chars[i]);
        assert(out@ =~= chars@.take(i + 1));
        i = i + 1;
    }
    assert(out@ =~= chars@);
    out
}

/// The text made of the characters from one position up to another.
pub fn text_between(chars: &[char], from: usize, to: usize) -> (r: String)
    requires
        from <= to <= chars@.len(),
    ensures
        r@ == chars@.subrange(from as int, to as int),
{
    text_of(vstd::slice::slice_subrange(chars, from, to))
}

/// The decimal digit of a value below ten.
pub open spec fn decimal_digit(n: nat) -> char {
    ('0' as int + n) as char
}

/// The decimal rendering of a number.
pub open spec fn decimal_text(n: nat) -> Seq<char>
    decreases n,
{
    if n < 10 {
        seq![decimal_digit(n)]
    } else {
        decimal_text(n / 10).push(decimal_digit(n % 10))
    }
}

/// The digit of a value below ten.
fn digit_char(d: u64) -> (r: char)
    requires
        d < 10,
    ensures
        r == decimal_digit(d as nat),
{
    match d {
        0 => '0',
        1 => '1',
        2 => '2',
        3 => '3',
        4 => '4',
        5 => '5',
        6 => '6',
        7 => '7',
        8 => '8',
        _ => '9',
    }
}

/// Append the decimal rendering of a number.
pub fn push_decimal(out: &mut String, n: u64)
    ensures
        final(out)@ == old(out)@ + decimal_text(n as nat),
    decreases n,
{
    if n >= 10 {
        push_decimal(out, n / 10);
    }
    out.push(digit_char(n % 10));
    assert(out@ =~= old(out)@ + decimal_text(n as nat));
}

/// Append text.
pub fn push_text(out: &mut String, text: &str)
    ensures
        final(out)@ == old(out)@ + text@,
{
    out.append(text);
}

/// A copy of a piece of text.
pub fn owned(text: &str) -> (r: String)
    ensures
        r@ == text@,
{
    text.to_owned()
}

// ── taking text apart ───────────────────────────────────────────────────────

/// The first position of `c` at or behind `from`, or the length where there is
/// none.
pub open spec fn index_from(s: Seq<char>, c: char, from: int) -> int
    decreases s.len() - from,
{
    if from >= s.len() {
        s.len() as int
    } else if s[from] == c {
        from
    } else {
        index_from(s, c, from + 1)
    }
}

/// Where the first occurrence lies and what lies before it.
pub proof fn index_from_bounds(s: Seq<char>, c: char, from: int)
    requires
        0 <= from <= s.len(),
    ensures
        from <= index_from(s, c, from) <= s.len(),
        index_from(s, c, from) < s.len() ==> s[index_from(s, c, from)] == c,
        forall|i: int| from <= i < index_from(s, c, from) ==> s[i] != c,
    decreases s.len() - from,
{
    if from < s.len() && s[from] != c {
        index_from_bounds(s, c, from + 1);
    }
}

/// The first occurrence behind a stretch that lacks the character.
pub proof fn index_from_behind(a: Seq<char>, c: char, b: Seq<char>, from: int)
    requires
        0 <= from <= a.len(),
        forall|i: int| from <= i < a.len() ==> a[i] != c,
    ensures
        index_from(a + b, c, from) == a.len() + index_from(b, c, 0),
    decreases a.len() - from,
{
    if from < a.len() {
        assert((a + b)[from] == a[from]);
        index_from_behind(a, c, b, from + 1);
    } else {
        lemma_index_shift(a, c, b, 0);
    }
}

proof fn lemma_index_shift(a: Seq<char>, c: char, b: Seq<char>, from: int)
    requires
        0 <= from <= b.len(),
    ensures
        index_from(a + b, c, a.len() + from) == a.len() + index_from(b, c, from),
    decreases b.len() - from,
{
    if from < b.len() {
        assert((a + b)[a.len() + from] == b[from]);
        lemma_index_shift(a, c, b, from + 1);
    }
}

/// The first position of a character at or behind a position.
pub fn find_from(chars: &[char], c: char, from: usize) -> (r: usize)
    requires
        from <= chars@.len(),
    ensures
        r == index_from(chars@, c, from as int),
        from <= r <= chars@.len(),
{
    let mut i: usize = from;
    while i < chars.len() && chars[i] != c
        invariant
            from <= i <= chars@.len(),
            index_from(chars@, c, from as int) == index_from(chars@, c, i as int),
        decreases chars@.len() - i,
    {
        i = i + 1;
    }
    i
}

/// A line without the carriage return that ends it.
pub open spec fn without_cr(line: Seq<char>) -> Seq<char> {
    if line.len() > 0 && line.last() == '\r' {
        line.drop_last()
    } else {
        line
    }
}

/// The lines of text: each ends at a line feed, or at a carriage return and a
/// line feed; the last line need not end.
pub open spec fn text_lines(s: Seq<char>) -> Seq<Seq<char>>
    decreases s.len(),
{
    if s.len() == 0 {
        seq![]
    } else {
        let end = index_from(s, '\n', 0);
        if 0 <= end < s.len() {
            seq![without_cr(s.take(end))] + text_lines(s.skip(end + 1))
        } else {
            seq![s]
        }
    }
}

/// The first line that text is made of, if the text is not empty.
pub open spec fn first_line(s: Seq<char>) -> Option<Seq<char>> {
    if s.len() == 0 {
        None
    } else {
        Some(text_lines(s)[0])
    }
}

/// A line that was ended by a line feed is the first line of what follows.
pub proof fn text_lines_cons(line: Seq<char>, tail: Seq<char>)
    requires
        forall|i: int| 0 <= i < line.len() ==> line[i] != '\n',
        line.len() == 0 || line.last() != '\r',
    ensures
        text_lines(line.push('\n') + tail) == seq![line] + text_lines(tail),
{
    let s = line.push('\n') + tail;
    let b = seq!['\n'] + tail;
    assert(s =~= line + b);
    index_from_behind(line, '\n', b, 0);
    assert(index_from(b, '\n', 0) == 0);
    assert(s.take(line.len() as int) =~= line);
    assert(s.skip((line.len() + 1) as int) =~= tail);
}

/// The lines of a piece of text.
pub fn lines_of(text: &str) -> (r: Vec<String>)
    ensures
        contents(r@) == text_lines(text@),
{
    let chars = chars_of(text);
    let ghost s = chars@;
    let mut out: Vec<String> = Vec::new();
    let mut start: usize = 0;
    proof {
        assert(s.skip(0) =~= s);
        assert(contents(out@) + text_lines(s) =~= text_lines(s));
    }
    while start < chars.len()
        invariant
            start <= chars@.len(),
            s == chars@,
            contents(out@) + text_lines(s.skip(start as int)) == text_lines(s),
        decreases chars@.len() - start,
    {
        let ghost tail = s.skip(start as int);
        let ghost before = contents(out@);
        let end: usize = find_from(chars.as_slice(), '\n', start);
        proof {
            assert(s =~= s.take(start as int) + tail);
            lemma_index_shift(s.take(start as int), '\n', tail, 0);
            assert(index_from(tail, '\n', 0) == end - start);
        }
        if end < chars.len() {
            let stop: usize = if end > start && chars[end - 1] == '\r' {
                end - 1
            } else {
                end
            };
            let line = text_between(chars.as_slice(), start, stop);
            proof {
                assert(tail.take(end - start) =~= s.subrange(start as int, end as int));
                assert(line@ =~= without_cr(tail.take(end - start)));
                assert(tail.skip(end - start + 1) =~= s.skip(end + 1));
            }
            out.push(line);
            proof {
                assert(contents(out@) =~= before.push(line@));
                assert(contents(out@) + text_lines(s.skip(end + 1)) =~= before + (seq![line@]
                    + text_lines(s.skip(end + 1))));
            }
            start = end + 1;
        } else {
            let line = text_between(chars.as_slice(), start, chars.len());
            assert(line@ =~= tail);
            out.push(line);
            proof {
                assert(contents(out@) =~= before.push(line@));
                assert(s.skip(end as int) =~= seq![]);
                assert(contents(out@) + text_lines(s.skip(end as int)) =~= before + seq![tail]);
            }
            start = end;
        }
    }
    proof {
        assert(s.skip(start as int) =~= seq![]);
        assert(contents(out@) + Seq::<Seq<char>>::empty() =~= contents(out@));
    }
    out
}

/// What stands before and behind the first occurrence of a character.
pub open spec fn split_once(s: Seq<char>, c: char) -> Option<(Seq<char>, Seq<char>)> {
    let at = index_from(s, c, 0);
    if at < s.len() {
        Some((s.take(at), s.skip(at + 1)))
    } else {
        None
    }
}

/// Text split at the first occurrence of a character.
pub fn split_once_at(text: &str, c: char) -> (r: Option<(String, String)>)
    ensures
        match r {
            Some((a, b)) => split_once(text@, c) == Some((a@, b@)),
            None => split_once(text@, c) is None,
        },
{
    let chars = chars_of(text);
    let at: usize = find_from(chars.as_slice(), c, 0);
    if at < chars.len() {
        let a = text_between(chars.as_slice(), 0, at);
        let b = text_between(chars.as_slice(), at + 1, chars.len());
        assert(a@ =~= text@.take(at as int));
        assert(b@ =~= text@.skip(at + 1));
        Some((a, b))
    } else {
        None
    }
}

/// The pieces of text between the occurrences of a character.
pub open spec fn split_all(s: Seq<char>, c: char) -> Seq<Seq<char>>
    decreases s.len(),
{
    let at = index_from(s, c, 0);
    if 0 <= at < s.len() {
        seq![s.take(at)] + split_all(s.skip(at + 1), c)
    } else {
        seq![s]
    }
}

/// The pieces of a piece of text between the occurrences of a character.
pub fn split_at_all(text: &str, c: char) -> (r: Vec<String>)
    ensures
        contents(r@) == split_all(text@, c),
{
    let chars = chars_of(text);
    let ghost s = chars@;
    let mut out: Vec<String> = Vec::new();
    let mut start: usize = 0;
    proof {
        assert(s.skip(0) =~= s);
        assert(contents(out@) + split_all(s, c) =~= split_all(s, c));
    }
    loop
        invariant
            start <= chars@.len(),
            s == chars@,
            s == text@,
            contents(out@) + split_all(s.skip(start as int), c) == split_all(s, c),
        decreases chars@.len() - start,
    {
        let ghost tail = s.skip(start as int);
        let ghost before = contents(out@);
        let end: usize = find_from(chars.as_slice(), c, start);
        proof {
            assert(s =~= s.take(start as int) + tail);
            lemma_index_shift(s.take(start as int), c, tail, 0);
            assert(index_from(tail, c, 0) == end - start);
        }
        let piece = text_between(chars.as_slice(), start, end);
        out.push(piece);
        assert(contents(out@) =~= before.push(piece@));
        if end < chars.len() {
            proof {
                assert(tail.take(end - start) =~= piece@);
                assert(tail.skip(end - start + 1) =~= s.skip(end + 1));
                assert(contents(out@) + split_all(s.skip(end + 1), c) =~= before + (seq![piece@]
                    + split_all(s.skip(end + 1), c)));
            }
            start = end + 1;
        } else {
            proof {
                assert(tail =~= piece@);
                assert(contents(out@) =~= before + seq![tail]);
            }
            return out;
        }
    }
}

/// Whether a character is white space.
pub open spec fn white_space(c: char) -> bool {
    ||| '\u{9}' <= c <= '\u{d}'
    ||| c == ' '
    ||| c == '\u{85}'
    ||| c == '\u{a0}'
    ||| c == '\u{1680}'
    ||| '\u{2000}' <= c <= '\u{200a}'
    ||| c == '\u{2028}'
    ||| c == '\u{2029}'
    ||| c == '\u{202f}'
    ||| c == '\u{205f}'
    ||| c == '\u{3000}'
}

/// Whether a character is white space.
pub fn is_white_space(c: char) -> (r: bool)
    ensures
        r == white_space(c),
{
    ('\u{9}' <= c && c <= '\u{d}') || c == ' ' || c == '\u{85}' || c == '\u{a0}' || c
        == '\u{1680}' || ('\u{2000}' <= c && c <= '\u{200a}') || c == '\u{2028}' || c
        == '\u{2029}' || c == '\u{202f}' || c == '\u{205f}' || c == '\u{3000}'
}

/// Text without the white space it begins with.
pub open spec fn trim_start(s: Seq<char>) -> Seq<char>
    decreases s.len(),
{
    if s.len() > 0 && white_space(s[0]) {
        trim_start(s.drop_first())
    } else {
        s
    }
}

/// Text without the white space it ends with.
pub open spec fn trim_end(s: Seq<char>) -> Seq<char>
    decreases s.len(),
{
    if s.len() > 0 && white_space(s.last()) {
        trim_end(s.drop_last())
    } else {
        s
    }
}

/// Text without the white space around it.
pub open spec fn trim(s: Seq<char>) -> Seq<char> {
    trim_end(trim_start(s))
}

/// Text that neither begins nor ends with white space stays as it is.
pub proof fn trim_keeps(s: Seq<char>)
    requires
        s.len() > 0,
        !white_space(s[0]),
        !white_space(s.last()),
    ensures
        trim(s) == s,
{
}

/// What lies before white space at the end, with that white space or without it.
proof fn lemma_trim_start_push(s: Seq<char>, c: char)
    requires
        white_space(c),
    ensures
        trim_end(trim_start(s.push(c))) == trim_end(trim_start(s)),
    decreases s.len(),
{
    let t = s.push(c);
    if s.len() == 0 {
        assert(t.drop_first() =~= s);
        assert(trim_start(t) == trim_start(s));
    } else if white_space(s[0]) {
        assert(t.drop_first() =~= s.drop_first().push(c));
        lemma_trim_start_push(s.drop_first(), c);
    } else {
        assert(t.drop_last() =~= s);
    }
}

/// A carriage return at the end of a line is white space.
pub proof fn trim_forgets_cr(line: Seq<char>)
    ensures
        trim(without_cr(line)) == trim(line),
{
    if line.len() > 0 && line.last() == '\r' {
        assert(line =~= line.drop_last().push('\r'));
        lemma_trim_start_push(line.drop_last(), '\r');
    }
}

/// Text without the white space around it.
pub fn trimmed(text: &str) -> (r: String)
    ensures
        r@ == trim(text@),
{
    let chars = chars_of(text);
    let ghost s = chars@;
    let mut from: usize = 0;
    assert(s.skip(0) =~= s);
    while from < chars.len() && is_white_space(chars[from])
        invariant
            from <= chars@.len(),
            s == chars@,
            trim_start(s) == trim_start(s.skip(from as int)),
        decreases chars@.len() - from,
    {
        assert(s.skip(from as int).drop_first() =~= s.skip(from + 1));
        from = from + 1;
    }
    let ghost t = s.skip(from as int);
    assert(trim_start(s) == t);
    let mut to: usize = chars.len();
    assert(t =~= s.subrange(from as int, to as int));
    while to > from && is_white_space(chars[to - 1])
        invariant
            from <= to <= chars@.len(),
            s == chars@,
            trim_end(t) == trim_end(s.subrange(from as int, to as int)),
        decreases to,
    {
        assert(s.subrange(from as int, to as int).drop_last() =~= s.subrange(
            from as int,
            to - 1,
        ));
        to = to - 1;
    }
    text_between(chars.as_slice(), from, to)
}

/// What follows a prefix, if the text begins with it.
pub open spec fn strip_prefix(s: Seq<char>, prefix: Seq<char>) -> Option<Seq<char>> {
    if prefix.is_prefix_of(s) {
        Some(s.skip(prefix.len() as int))
    } else {
        None
    }
}

/// What follows a prefix, if the text begins with it.
pub fn stripped_prefix(text: &str, prefix: &str) -> (r: Option<String>)
    ensures
        match r {
            Some(t) => strip_prefix(text@, prefix@) == Some(t@),
            None => strip_prefix(text@, prefix@) is None,
        },
{
    let chars = chars_of(text);
    let lead = chars_of(prefix);
    if chars.len() < lead.len() {
        return None;
    }
    let mut i: usize = 0;
    while i < lead.len()
        invariant
            i <= lead@.len() <= chars@.len(),
            chars@ == text@,
            lead@ == prefix@,
            forall|j: int| 0 <= j < i ==> chars@[j] == lead@[j],
        decreases lead@.len() - i,
    {
        if chars[i] != lead[i] {
            return None;
        }
        i = i + 1;
    }
    let tail = text_between(chars.as_slice(), lead.len(), chars.len());
    assert(tail@ =~= text@.skip(prefix@.len() as int));
    Some(tail)
}

/// The characters of an optional text.
pub open spec fn opt_text(s: Option<String>) -> Option<Seq<char>> {
    match s {
        Some(t) => Some(t@),
        None => None,
    }
}

/// A copy of an optional text.
pub fn copy_opt_text(s: &Option<String>) -> (r: Option<String>)
    ensures
        opt_text(r) == opt_text(*s),
{
    match s {
        Some(t) => Some(owned(t.as_str())),
        None => None,
    }
}

} // verus!
