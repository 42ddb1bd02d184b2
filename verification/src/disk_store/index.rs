//! The three index files of a store: the names, the canonical signatures and
//! the state migrations of the latest build.
//!
//! A line of `names` is `<hex-hash> <name>`. The fields of `signatures` and
//! `migrations` are separated by tabs; tabs, line ends and backslashes inside a
//! field are escaped.

use vstd::prelude::*;

use crate::compiler::module_output::{migration_views, MigrationRecord, MigrationView};
use crate::digest::{hash_hex_bytes, hex_roundtrip, hex_text, is_hash_hex, Digest};
use crate::ordmap::{entries_map, entry_found, has_key, key_position, keys_increase, Key, OrdMap};
use crate::sorting::{ranks_lt, sorted, stable_sort, Ranked};
use crate::text::{
    chars_of, index_from_behind, index_from_bounds, lines_of, owned, push_text, split_all,
    split_at_all, split_once, split_once_at, text_lines, text_lines_cons,
};
use crate::wire::contents;

verus! {

broadcast use {vstd::string::group_string_axioms, vstd::array::group_array_axioms};

// ── lines ───────────────────────────────────────────────────────────────────

/// Lines put together, each ended by a line feed.
pub open spec fn joined_lines(lines: Seq<Seq<char>>) -> Seq<char>
    decreases lines.len(),
{
    if lines.len() == 0 {
        seq![]
    } else {
        lines[0].push('\n') + joined_lines(lines.drop_first())
    }
}

/// Whether a line stays whole when it is ended by a line feed and read back.
pub open spec fn plain_line(line: Seq<char>) -> bool {
    (forall|i: int| 0 <= i < line.len() ==> line[i] != '\n') && (line.len() == 0 || line.last()
        != '\r')
}

proof fn lemma_joined_snoc(lines: Seq<Seq<char>>, line: Seq<char>)
    ensures
        joined_lines(lines.push(line)) == joined_lines(lines) + line.push('\n'),
    decreases lines.len(),
{
    reveal_with_fuel(joined_lines, 2);
    if lines.len() == 0 {
        assert(lines.push(line).drop_first() =~= Seq::<Seq<char>>::empty());
        assert(joined_lines(lines.push(line)) =~= joined_lines(lines) + line.push('\n'));
    } else {
        lemma_joined_snoc(lines.drop_first(), line);
        assert(lines.push(line).drop_first() =~= lines.drop_first().push(line));
        assert(joined_lines(lines.push(line)) =~= joined_lines(lines) + line.push('\n'));
    }
}

proof fn lemma_lines_read_back(lines: Seq<Seq<char>>)
    requires
        forall|i: int| 0 <= i < lines.len() ==> plain_line(#[trigger] lines[i]),
    ensures
        text_lines(joined_lines(lines)) == lines,
    decreases lines.len(),
{
    if lines.len() == 0 {
        assert(text_lines(joined_lines(lines)) =~= lines);
    } else {
        assert forall|i: int| 0 <= i < lines.drop_first().len() implies plain_line(
            #[trigger] lines.drop_first()[i],
        ) by {
            assert(lines.drop_first()[i] == lines[i + 1]);
        }
        lemma_lines_read_back(lines.drop_first());
        text_lines_cons(lines[0], joined_lines(lines.drop_first()));
        assert(seq![lines[0]] + lines.drop_first() =~= lines);
    }
}

// ── names ───────────────────────────────────────────────────────────────────

/// The line of one binding.
pub open spec fn name_line(name: Seq<char>, hash: Seq<u8>) -> Seq<char> {
    hex_text(hash).push(' ') + name
}

/// The lines of the bindings of a map in order.
pub open spec fn name_lines(entries: Seq<(String, Digest)>) -> Seq<Seq<char>> {
    Seq::new(entries.len(), |i: int| name_line(entries[i].0@, entries[i].1@))
}

/// The binding that a line states, if it states one.
pub open spec fn name_of_line(line: Seq<char>) -> Option<(Seq<char>, Seq<u8>)> {
    match split_once(line, ' ') {
        Some((hex, name)) => if is_hash_hex(hex) {
            Some((name, hash_hex_bytes(hex)))
        } else {
            None
        },
        None => None,
    }
}

/// The bindings that lines state, or the first line that states none. Empty
/// lines are passed over; of two bindings of one name the later counts.
pub open spec fn names_of_lines(lines: Seq<Seq<char>>) -> Result<Map<Seq<char>, Seq<u8>>, Seq<char>>
    decreases lines.len(),
{
    if lines.len() == 0 {
        Ok(Map::empty())
    } else {
        match names_of_lines(lines.drop_last()) {
            Err(line) => Err(line),
            Ok(map) => if lines.last().len() == 0 {
                Ok(map)
            } else {
                match name_of_line(lines.last()) {
                    Some((name, hash)) => Ok(map.insert(name, hash)),
                    None => Err(lines.last()),
                }
            },
        }
    }
}

proof fn lemma_names_error_stays(lines: Seq<Seq<char>>, k: int)
    requires
        0 <= k <= lines.len(),
        names_of_lines(lines.take(k)) is Err,
    ensures
        names_of_lines(lines) == names_of_lines(lines.take(k)),
    decreases lines.len() - k,
{
    if k < lines.len() {
        assert(lines.take(k + 1).drop_last() =~= lines.take(k));
        lemma_names_error_stays(lines, k + 1);
    } else {
        assert(lines.take(k) =~= lines);
    }
}

/// The bytes of the hashes of a map.
pub open spec fn hash_values(map: Map<Seq<char>, Digest>) -> Map<Seq<char>, Seq<u8>> {
    map.map_values(|d: Digest| d@)
}

/// The contents of the `names` file for some bindings.
pub fn render_names(names: &OrdMap<String, Digest>) -> (r: String)
    ensures
        r@ == joined_lines(name_lines(names.seq())),
{
    let items = names.items();
    let ghost lines = name_lines(items@);
    let mut out = String::new();
    let mut i: usize = 0;
    assert(lines.take(0) =~= seq![]);
    while i < items.len()
        invariant
            i <= items@.len(),
            lines == name_lines(items@),
            out@ == joined_lines(lines.take(i as int)),
        decreases items@.len() - i,
    {
        let ghost before = out@;
        let hex = items[i].1.to_hex();
        push_text(&mut out, hex.as_str());
        out.push(' ');
        push_text(&mut out, items[i].0.as_str());
        out.push('\n');
        proof {
            assert(out@ =~= before + lines[i as int].push('\n'));
            lemma_joined_snoc(lines.take(i as int), lines[i as int]);
            assert(lines.take(i + 1) =~= lines.take(i as int).push(lines[i as int]));
        }
        i = i + 1;
    }
    assert(lines.take(lines.len() as int) =~= lines);
    out
}

/// The bindings that the `names` file states, or the first malformed line.
pub fn parse_names(content: &str) -> (r: Result<OrdMap<String, Digest>, String>)
    ensures
        match names_of_lines(text_lines(content@)) {
            Ok(map) => r is Ok && hash_values(r->Ok_0@) == map,
            Err(line) => r is Err && r->Err_0@ == line,
        },
{
    let lines = lines_of(content);
    let ghost all = contents(lines@);
    let mut out: OrdMap<String, Digest> = OrdMap::new();
    let mut i: usize = 0;
    assert(all.take(0) =~= seq![]);
    assert(hash_values(out@) =~= Map::empty());
    while i < lines.len()
        invariant
            i <= lines@.len(),
            all == contents(lines@),
            all == text_lines(content@),
            names_of_lines(all.take(i as int)) == Ok::<Map<Seq<char>, Seq<u8>>, Seq<char>>(
                hash_values(out@),
            ),
        decreases lines@.len() - i,
    {
        let line = &lines[i];
        proof {
            assert(all.take(i + 1).drop_last() =~= all.take(i as int));
            assert(all.take(i + 1).last() == line@);
            if names_of_lines(all.take(i + 1)) is Err {
                lemma_names_error_stays(all, i + 1);
            }
        }
        if line.as_str().is_empty() {
            i = i + 1;
            continue ;
        }
        match split_once_at(line.as_str(), ' ') {
            None => {
                return Err(owned(line.as_str()));
            },
            Some((hex, name)) => {
                match Digest::from_hex(hex.as_str()) {
                    None => {
                        return Err(owned(line.as_str()));
                    },
                    Some(hash) => {
                        let ghost before = out@;
                        out.insert(name, hash);
                        assert(hash_values(out@) =~= hash_values(before).insert(name@, hash@));
                    },
                }
            },
        }
        i = i + 1;
    }
    assert(all.take(all.len() as int) =~= all);
    Ok(out)
}

/// Whether a name stays whole in the `names` file.
pub open spec fn plain_name(name: Seq<char>) -> bool {
    (forall|i: int| 0 <= i < name.len() ==> name[i] != '\n') && (name.len() == 0 || name.last()
        != '\r')
}

proof fn lemma_name_line_reads_back(name: Seq<char>, hash: Seq<u8>)
    requires
        hash.len() == 32,
        plain_name(name),
    ensures
        plain_line(name_line(name, hash)),
        name_line(name, hash).len() > 0,
        name_of_line(name_line(name, hash)) == Some((name, hash)),
{
    hex_roundtrip(hash);
    let hex = hex_text(hash);
    let line = name_line(name, hash);
    assert forall|i: int| 0 <= i < hex.len() implies hex[i] != ' ' && hex[i] != '\n' by {
        assert(crate::digest::hex_value(hex[i]) is Some);
    }
    assert(line =~= hex + (seq![' '] + name));
    index_from_behind(hex, ' ', seq![' '] + name, 0);
    assert(line.take(64) =~= hex);
    assert(line.skip(65) =~= name);
    assert forall|i: int| 0 <= i < line.len() implies line[i] != '\n' by {
        if i < 64 {
            assert(line[i] == hex[i]);
        } else if i > 64 {
            assert(line[i] == name[i - 65]);
        }
    }
    assert(line.last() != '\r') by {
        if name.len() == 0 {
            assert(line.last() == ' ');
        } else {
            assert(line.last() == name.last());
        }
    }
}

proof fn lemma_name_lines_fold(entries: Seq<(String, Digest)>, k: int)
    requires
        keys_increase(entries),
        0 <= k <= entries.len(),
        forall|i: int| 0 <= i < entries.len() ==> plain_name((#[trigger] entries[i]).0@),
    ensures
        names_of_lines(name_lines(entries).take(k)) == Ok::<Map<Seq<char>, Seq<u8>>, Seq<char>>(
            hash_values(entries_map(entries.take(k))),
        ),
    decreases k,
{
    let lines = name_lines(entries);
    if k == 0 {
        assert(lines.take(0) =~= seq![]);
        assert(hash_values(entries_map(entries.take(0))) =~= Map::empty());
    } else {
        lemma_name_lines_fold(entries, k - 1);
        let e = entries[k - 1];
        lemma_name_line_reads_back(e.0@, e.1@);
        assert(lines.take(k).drop_last() =~= lines.take(k - 1));
        assert(lines.take(k).last() == name_line(e.0@, e.1@));
        lemma_prefix_map(entries, k);
        assert(hash_values(entries_map(entries.take(k))) =~= hash_values(
            entries_map(entries.take(k - 1)),
        ).insert(e.0@, e.1@));
    }
}

/// The map of one more entry.
pub(crate) proof fn lemma_prefix_map<V>(entries: Seq<(String, V)>, k: int)
    requires
        keys_increase(entries),
        0 < k <= entries.len(),
    ensures
        entries_map(entries.take(k)) == entries_map(entries.take(k - 1)).insert(
            entries[k - 1].0@,
            entries[k - 1].1,
        ),
{
    let a = entries.take(k - 1);
    let b = entries.take(k);
    let e = entries[k - 1];
    assert(keys_increase(a)) by {
        assert forall|i: int, j: int| 0 <= i < j < a.len() implies crate::order::bytes_lt(
            String::order_bytes(#[trigger] a[i].0.model()),
            String::order_bytes(#[trigger] a[j].0.model()),
        ) by {
            assert(a[i].0.model() == entries[i].0.model());
            assert(a[j].0.model() == entries[j].0.model());
        }
    }
    assert(keys_increase(b)) by {
        assert forall|i: int, j: int| 0 <= i < j < b.len() implies crate::order::bytes_lt(
            String::order_bytes(#[trigger] b[i].0.model()),
            String::order_bytes(#[trigger] b[j].0.model()),
        ) by {
            assert(b[i].0.model() == entries[i].0.model());
            assert(b[j].0.model() == entries[j].0.model());
        }
    }
    let want = entries_map(a).insert(e.0@, e.1);
    entry_found(b, k - 1);
    assert forall|m: Seq<char>| entries_map(b).contains_key(m) <==> want.contains_key(m) by {
        if has_key(b, m) {
            let i = key_position(b, m);
            if i < k - 1 {
                assert(a[i].0.model() == m);
            }
        }
        if has_key(a, m) {
            let i = key_position(a, m);
            assert(b[i].0.model() == m);
        }
        assert(b[k - 1].0.model() == e.0@);
    }
    assert forall|m: Seq<char>| entries_map(b).contains_key(m) implies entries_map(b)[m]
        == want[m] by {
        let i = key_position(b, m);
        assert(b[i].0.model() == m);
        entry_found(b, i);
        if i < k - 1 {
            assert(a[i] == b[i]);
            entry_found(a, i);
            if m == e.0@ {
                entry_found(b, k - 1);
            }
        }
    }
    assert(entries_map(b) =~= want);
}

/// The `names` file reads back as the bindings it was written for. Names with
/// a line feed in them, or a carriage return at their end, are left out: the
/// format has no escape for them.
pub proof fn name_entries_read_back(entries: Seq<(String, Digest)>)
    requires
        keys_increase(entries),
        forall|n: Seq<char>| #[trigger]
            hash_values(entries_map(entries)).contains_key(n) ==> plain_name(n),
    ensures
        names_of_lines(text_lines(joined_lines(name_lines(entries)))) == Ok::<
            Map<Seq<char>, Seq<u8>>,
            Seq<char>,
        >(hash_values(entries_map(entries))),
{
    let lines = name_lines(entries);
    assert forall|i: int| 0 <= i < entries.len() implies plain_name((#[trigger] entries[i]).0@) by {
        entry_found(entries, i);
        assert(hash_values(entries_map(entries)).contains_key(entries[i].0@));
    }
    assert forall|i: int| 0 <= i < lines.len() implies plain_line(#[trigger] lines[i]) by {
        assert(plain_name(entries[i].0@));
        lemma_name_line_reads_back(entries[i].0@, entries[i].1@);
    }
    lemma_lines_read_back(lines);
    lemma_name_lines_fold(entries, entries.len() as int);
    assert(lines.take(lines.len() as int) =~= lines);
    assert(entries.take(entries.len() as int) =~= entries);
}

// ── escaping ────────────────────────────────────────────────────────────────

/// How one character is written in a field.
pub open spec fn escape_char(c: char) -> Seq<char> {
    if c == '\\' {
        seq!['\\', '\\']
    } else if c == '\t' {
        seq!['\\', 't']
    } else if c == '\n' {
        seq!['\\', 'n']
    } else if c == '\r' {
        seq!['\\', 'r']
    } else {
        seq![c]
    }
}

/// How text is written in a field.
pub open spec fn escaped(s: Seq<char>) -> Seq<char>
    decreases s.len(),
{
    if s.len() == 0 {
        seq![]
    } else {
        escape_char(s[0]) + escaped(s.drop_first())
    }
}

/// The character that a backslash and a letter stand for.
pub open spec fn unescape_char(c: char) -> Option<char> {
    if c == '\\' {
        Some('\\')
    } else if c == 't' {
        Some('\t')
    } else if c == 'n' {
        Some('\n')
    } else if c == 'r' {
        Some('\r')
    } else {
        None
    }
}

/// The text that a field stands for; `None` where a backslash ends the field
/// or stands before another letter.
pub open spec fn unescaped(s: Seq<char>) -> Option<Seq<char>>
    decreases s.len(),
{
    if s.len() == 0 {
        Some(seq![])
    } else if s[0] != '\\' {
        match unescaped(s.drop_first()) {
            Some(t) => Some(seq![s[0]] + t),
            None => None,
        }
    } else if s.len() < 2 {
        None
    } else {
        match unescape_char(s[1]) {
            Some(c) => match unescaped(s.skip(2)) {
                Some(t) => Some(seq![c] + t),
                None => None,
            },
            None => None,
        }
    }
}

/// A field reads back as the text that was written.
pub proof fn unescaping_undoes_escaping(s: Seq<char>)
    ensures
        unescaped(escaped(s)) == Some(s),
    decreases s.len(),
{
    reveal_with_fuel(unescaped, 2);
    if s.len() == 0 {
        assert(s =~= seq![]);
    } else {
        let t = s.drop_first();
        unescaping_undoes_escaping(t);
        let e = escaped(s);
        assert(seq![s[0]] + t =~= s);
        if escape_char(s[0]).len() == 1 {
            assert(e.drop_first() =~= escaped(t));
        } else {
            assert(e.skip(2) =~= escaped(t));
        }
    }
}

/// No tab and no line end is left in a field.
pub proof fn escaped_is_plain(s: Seq<char>)
    ensures
        forall|i: int|
            0 <= i < escaped(s).len() ==> (#[trigger] escaped(s)[i]) != '\t' && escaped(s)[i]
                != '\n' && escaped(s)[i] != '\r',
    decreases s.len(),
{
    if s.len() > 0 {
        escaped_is_plain(s.drop_first());
        let a = escape_char(s[0]);
        let b = escaped(s.drop_first());
        assert forall|i: int| 0 <= i < (a + b).len() implies (#[trigger] (a + b)[i]) != '\t' && (a
            + b)[i] != '\n' && (a + b)[i] != '\r' by {
            if i >= a.len() {
                assert((a + b)[i] == b[i - a.len()]);
            }
        }
    }
}

proof fn lemma_escaped_snoc(s: Seq<char>, c: char)
    ensures
        escaped(s.push(c)) == escaped(s) + escape_char(c),
    decreases s.len(),
{
    reveal_with_fuel(escaped, 2);
    if s.len() == 0 {
        assert(s.push(c).drop_first() =~= Seq::<char>::empty());
        assert(escaped(s.push(c)) =~= escaped(s) + escape_char(c));
    } else {
        lemma_escaped_snoc(s.drop_first(), c);
        assert(s.push(c).drop_first() =~= s.drop_first().push(c));
        assert(escaped(s.push(c)) =~= escaped(s) + escape_char(c));
    }
}

/// Append a field.
fn push_escaped(out: &mut String, s: &str)
    ensures
        final(out)@ == old(out)@ + escaped(s@),
{
    let chars = chars_of(s);
    let ghost start = out@;
    let mut i: usize = 0;
    assert(chars@.take(0) =~= seq![]);
    assert(start + escaped(chars@.take(0)) =~= start);
    while i < chars.len()
        invariant
            i <= chars@.len(),
            chars@ == s@,
            out@ == start + escaped(chars@.take(i as int)),
        decreases chars@.len() - i,
    {
        let c: char = chars[i];
        let ghost before = out@;
        if c == '\\' {
            out.push('\\');
            out.push('\\');
        } else if c == '\t' {
            out.push('\\');
            out.push('t');
        } else if c == '\n' {
            out.push('\\');
            out.push('n');
        } else if c == '\r' {
            out.push('\\');
            out.push('r');
        } else {
            out.push(c);
        }
        proof {
            assert(out@ =~= before + escape_char(c));
            lemma_escaped_snoc(chars@.take(i as int), c);
            assert(chars@.take(i + 1) =~= chars@.take(i as int).push(c));
            assert(out@ =~= start + escaped(chars@.take(i + 1)));
        }
        i = i + 1;
    }
    assert(chars@.take(chars@.len() as int) =~= chars@);
}

/// How text is written in a field, so that neither a tab nor a line end
/// appears raw.
pub fn escape_field(s: &str) -> (r: String)
    ensures
        r@ == escaped(s@),
{
    let mut out = String::new();
    push_escaped(&mut out, s);
    assert(out@ =~= escaped(s@));
    out
}

/// The text that a field stands for, unless an escape in it is malformed.
pub fn unescape_field(s: &str) -> (r: Option<String>)
    ensures
        match r {
            Some(t) => unescaped(s@) == Some(t@),
            None => unescaped(s@) is None,
        },
{
    let chars = chars_of(s);
    let ghost all = chars@;
    let mut out = String::new();
    let mut i: usize = 0;
    proof {
        assert(all.skip(0) =~= all);
        if let Some(t) = unescaped(all) {
            assert(out@ + t =~= t);
        }
    }
    while i < chars.len()
        invariant
            i <= chars@.len(),
            all == chars@,
            all == s@,
            unescaped(all) == (match unescaped(all.skip(i as int)) {
                Some(t) => Some(out@ + t),
                None => None,
            }),
        decreases chars@.len() - i,
    {
        let c: char = chars[i];
        let ghost tail = all.skip(i as int);
        let ghost before = out@;
        if c != '\\' {
            out.push(c);
            proof {
                assert(tail.drop_first() =~= all.skip(i + 1));
                if let Some(t) = unescaped(all.skip(i + 1)) {
                    assert(before + (seq![c] + t) =~= out@ + t);
                }
            }
            i = i + 1;
        } else {
            if i + 1 >= chars.len() {
                return None;
            }
            assert(tail.skip(2) =~= all.skip(i + 2));
            assert(tail[1] == all[i + 1]);
            let d: char = match chars[i + 1] {
                '\\' => '\\',
                't' => '\t',
                'n' => '\n',
                'r' => '\r',
                _ => {
                    return None;
                },
            };
            out.push(d);
            proof {
                if let Some(t) = unescaped(all.skip(i + 2)) {
                    assert(before + (seq![d] + t) =~= out@ + t);
                }
            }
            i = i + 2;
        }
    }
    proof {
        assert(all.skip(i as int) =~= seq![]);
        assert(out@ + Seq::<char>::empty() =~= out@);
    }
    Some(out)
}

// ── signatures ──────────────────────────────────────────────────────────────

/// The line of one signature.
pub open spec fn signature_line(name: Seq<char>, sig: Seq<char>) -> Seq<char> {
    escaped(name).push('\t') + escaped(sig)
}

/// The lines of the signatures of a map in order.
pub open spec fn signature_lines(entries: Seq<(String, String)>) -> Seq<Seq<char>> {
    Seq::new(entries.len(), |i: int| signature_line(entries[i].0@, entries[i].1@))
}

/// The signature that a line states, if it states one.
pub open spec fn signature_of_line(line: Seq<char>) -> Option<(Seq<char>, Seq<char>)> {
    match split_once(line, '\t') {
        Some((a, b)) => match (unescaped(a), unescaped(b)) {
            (Some(name), Some(sig)) => Some((name, sig)),
            _ => None,
        },
        None => None,
    }
}

/// The signatures that lines state, or the first line that states none. Empty
/// lines are passed over; of two signatures of one name the later counts.
pub open spec fn signatures_of_lines(lines: Seq<Seq<char>>) -> Result<
    Map<Seq<char>, Seq<char>>,
    Seq<char>,
>
    decreases lines.len(),
{
    if lines.len() == 0 {
        Ok(Map::empty())
    } else {
        match signatures_of_lines(lines.drop_last()) {
            Err(line) => Err(line),
            Ok(map) => if lines.last().len() == 0 {
                Ok(map)
            } else {
                match signature_of_line(lines.last()) {
                    Some((name, sig)) => Ok(map.insert(name, sig)),
                    None => Err(lines.last()),
                }
            },
        }
    }
}

proof fn lemma_signatures_error_stays(lines: Seq<Seq<char>>, k: int)
    requires
        0 <= k <= lines.len(),
        signatures_of_lines(lines.take(k)) is Err,
    ensures
        signatures_of_lines(lines) == signatures_of_lines(lines.take(k)),
    decreases lines.len() - k,
{
    if k < lines.len() {
        assert(lines.take(k + 1).drop_last() =~= lines.take(k));
        lemma_signatures_error_stays(lines, k + 1);
    } else {
        assert(lines.take(k) =~= lines);
    }
}

/// The characters of the values of a map.
pub open spec fn text_values(map: Map<Seq<char>, String>) -> Map<Seq<char>, Seq<char>> {
    map.map_values(|s: String| s@)
}

/// The contents of the `signatures` file for some signatures.
pub fn render_signatures(signatures: &OrdMap<String, String>) -> (r: String)
    ensures
        r@ == joined_lines(signature_lines(signatures.seq())),
{
    let items = signatures.items();
    let ghost lines = signature_lines(items@);
    let mut out = String::new();
    let mut i: usize = 0;
    assert(lines.take(0) =~= seq![]);
    while i < items.len()
        invariant
            i <= items@.len(),
            lines == signature_lines(items@),
            out@ == joined_lines(lines.take(i as int)),
        decreases items@.len() - i,
    {
        let ghost before = out@;
        push_escaped(&mut out, items[i].0.as_str());
        out.push('\t');
        push_escaped(&mut out, items[i].1.as_str());
        out.push('\n');
        proof {
            assert(out@ =~= before + lines[i as int].push('\n'));
            lemma_joined_snoc(lines.take(i as int), lines[i as int]);
            assert(lines.take(i + 1) =~= lines.take(i as int).push(lines[i as int]));
        }
        i = i + 1;
    }
    assert(lines.take(lines.len() as int) =~= lines);
    out
}

/// The signatures that the `signatures` file states, or the first malformed
/// line.
pub fn parse_signatures(content: &str) -> (r: Result<OrdMap<String, String>, String>)
    ensures
        match signatures_of_lines(text_lines(content@)) {
            Ok(map) => r is Ok && text_values(r->Ok_0@) == map,
            Err(line) => r is Err && r->Err_0@ == line,
        },
{
    let lines = lines_of(content);
    let ghost all = contents(lines@);
    let mut out: OrdMap<String, String> = OrdMap::new();
    let mut i: usize = 0;
    assert(all.take(0) =~= seq![]);
    assert(text_values(out@) =~= Map::empty());
    while i < lines.len()
        invariant
            i <= lines@.len(),
            all == contents(lines@),
            all == text_lines(content@),
            signatures_of_lines(all.take(i as int)) == Ok::<Map<Seq<char>, Seq<char>>, Seq<char>>(
                text_values(out@),
            ),
        decreases lines@.len() - i,
    {
        let line = &lines[i];
        proof {
            assert(all.take(i + 1).drop_last() =~= all.take(i as int));
            assert(all.take(i + 1).last() == line@);
            if signatures_of_lines(all.take(i + 1)) is Err {
                lemma_signatures_error_stays(all, i + 1);
            }
        }
        if line.as_str().is_empty() {
            i = i + 1;
            continue ;
        }
        match split_once_at(line.as_str(), '\t') {
            None => {
                return Err(owned(line.as_str()));
            },
            Some((a, b)) => {
                match unescape_field(a.as_str()) {
                    None => {
                        return Err(owned(line.as_str()));
                    },
                    Some(name) => {
                        match unescape_field(b.as_str()) {
                            None => {
                                return Err(owned(line.as_str()));
                            },
                            Some(sig) => {
                                let ghost before = out@;
                                out.insert(name, sig);
                                assert(text_values(out@) =~= text_values(before).insert(
                                    name@,
                                    sig@,
                                ));
                            },
                        }
                    },
                }
            },
        }
        i = i + 1;
    }
    assert(all.take(all.len() as int) =~= all);
    Ok(out)
}

proof fn lemma_signature_line_reads_back(name: Seq<char>, sig: Seq<char>)
    ensures
        plain_line(signature_line(name, sig)),
        signature_line(name, sig).len() > 0,
        signature_of_line(signature_line(name, sig)) == Some((name, sig)),
{
    let a = escaped(name);
    let b = escaped(sig);
    let line = signature_line(name, sig);
    escaped_is_plain(name);
    escaped_is_plain(sig);
    unescaping_undoes_escaping(name);
    unescaping_undoes_escaping(sig);
    assert(line =~= a + (seq!['\t'] + b));
    index_from_behind(a, '\t', seq!['\t'] + b, 0);
    assert(line.take(a.len() as int) =~= a);
    assert(line.skip((a.len() + 1) as int) =~= b);
    assert forall|i: int| 0 <= i < line.len() implies line[i] != '\n' && line[i] != '\r' by {
        if i < a.len() {
            assert(line[i] == a[i]);
        } else if i > a.len() {
            assert(line[i] == b[i - a.len() - 1]);
        }
    }
}

proof fn lemma_signature_lines_fold(entries: Seq<(String, String)>, k: int)
    requires
        keys_increase(entries),
        0 <= k <= entries.len(),
    ensures
        signatures_of_lines(signature_lines(entries).take(k)) == Ok::<
            Map<Seq<char>, Seq<char>>,
            Seq<char>,
        >(text_values(entries_map(entries.take(k)))),
    decreases k,
{
    let lines = signature_lines(entries);
    if k == 0 {
        assert(lines.take(0) =~= seq![]);
        assert(text_values(entries_map(entries.take(0))) =~= Map::empty());
    } else {
        lemma_signature_lines_fold(entries, k - 1);
        let e = entries[k - 1];
        lemma_signature_line_reads_back(e.0@, e.1@);
        assert(lines.take(k).drop_last() =~= lines.take(k - 1));
        assert(lines.take(k).last() == signature_line(e.0@, e.1@));
        lemma_prefix_map(entries, k);
        assert(text_values(entries_map(entries.take(k))) =~= text_values(
            entries_map(entries.take(k - 1)),
        ).insert(e.0@, e.1@));
    }
}

/// The `signatures` file reads back as the signatures it was written for,
/// whatever characters they hold.
pub proof fn signature_entries_read_back(entries: Seq<(String, String)>)
    requires
        keys_increase(entries),
    ensures
        signatures_of_lines(text_lines(joined_lines(signature_lines(entries)))) == Ok::<
            Map<Seq<char>, Seq<char>>,
            Seq<char>,
        >(text_values(entries_map(entries))),
{
    let lines = signature_lines(entries);
    assert forall|i: int| 0 <= i < lines.len() implies plain_line(#[trigger] lines[i]) by {
        lemma_signature_line_reads_back(entries[i].0@, entries[i].1@);
    }
    lemma_lines_read_back(lines);
    lemma_signature_lines_fold(entries, entries.len() as int);
    assert(lines.take(lines.len() as int) =~= lines);
    assert(entries.take(entries.len() as int) =~= entries);
}

// ── migrations ──────────────────────────────────────────────────────────────

impl Ranked for MigrationRecord {
    open spec fn rank(&self) -> Seq<Seq<u8>> {
        seq![
            vstd::utf8::encode_utf8(self.cell@),
            vstd::utf8::encode_utf8(self.old@),
            vstd::utf8::encode_utf8(self.new@),
        ]
    }

    fn ranks_before(&self, other: &MigrationRecord) -> (r: bool) {
        proof {
            let a = self.rank();
            let b = other.rank();
            assert(a.drop_first() =~= seq![a[1], a[2]]);
            assert(b.drop_first() =~= seq![b[1], b[2]]);
            assert(seq![a[1], a[2]].drop_first() =~= seq![a[2]]);
            assert(seq![b[1], b[2]].drop_first() =~= seq![b[2]]);
            assert(seq![a[2]].drop_first() =~= Seq::<Seq<u8>>::empty());
            assert(seq![b[2]].drop_first() =~= Seq::<Seq<u8>>::empty());
            reveal_with_fuel(ranks_lt, 4);
            crate::order::bytes_lt_irreflexive(a[2]);
        }
        let ac = self.cell.as_str().as_bytes();
        let bc = other.cell.as_str().as_bytes();
        if !crate::order::bytes_same(ac, bc) {
            return crate::order::bytes_before(ac, bc);
        }
        let ao = self.old.as_str().as_bytes();
        let bo = other.old.as_str().as_bytes();
        if !crate::order::bytes_same(ao, bo) {
            return crate::order::bytes_before(ao, bo);
        }
        crate::order::bytes_before(self.new.as_str().as_bytes(), other.new.as_str().as_bytes())
    }
}

/// The line of one migration.
pub open spec fn migration_line(m: MigrationView) -> Seq<char> {
    escaped(m.cell).push('\t') + escaped(m.old).push('\t') + escaped(m.new)
}

/// The lines of some migrations.
pub open spec fn migration_lines(ms: Seq<MigrationView>) -> Seq<Seq<char>> {
    Seq::new(ms.len(), |i: int| migration_line(ms[i]))
}

/// The migration that a line states, if it states one: three fields.
pub open spec fn migration_of_line(line: Seq<char>) -> Option<MigrationView> {
    let fields = split_all(line, '\t');
    if fields.len() != 3 {
        None
    } else {
        match (unescaped(fields[0]), unescaped(fields[1]), unescaped(fields[2])) {
            (Some(cell), Some(old), Some(new)) => Some(MigrationView { cell, old, new }),
            _ => None,
        }
    }
}

/// The migrations that lines state, or the first line that states none. Empty
/// lines are passed over.
pub open spec fn migrations_of_lines(lines: Seq<Seq<char>>) -> Result<Seq<MigrationView>, Seq<char>>
    decreases lines.len(),
{
    if lines.len() == 0 {
        Ok(seq![])
    } else {
        match migrations_of_lines(lines.drop_last()) {
            Err(line) => Err(line),
            Ok(ms) => if lines.last().len() == 0 {
                Ok(ms)
            } else {
                match migration_of_line(lines.last()) {
                    Some(m) => Ok(ms.push(m)),
                    None => Err(lines.last()),
                }
            },
        }
    }
}

proof fn lemma_migrations_error_stays(lines: Seq<Seq<char>>, k: int)
    requires
        0 <= k <= lines.len(),
        migrations_of_lines(lines.take(k)) is Err,
    ensures
        migrations_of_lines(lines) == migrations_of_lines(lines.take(k)),
    decreases lines.len() - k,
{
    if k < lines.len() {
        assert(lines.take(k + 1).drop_last() =~= lines.take(k));
        lemma_migrations_error_stays(lines, k + 1);
    } else {
        assert(lines.take(k) =~= lines);
    }
}

/// The contents of the `migrations` file for some migrations, which are
/// written in order of cell, old shape and new shape.
pub fn render_migrations(migrations: Vec<MigrationRecord>) -> (r: String)
    ensures
        r@ == joined_lines(migration_lines(migration_views(sorted(migrations@)))),
{
    let items = stable_sort(migrations);
    let ghost lines = migration_lines(migration_views(items@));
    let mut out = String::new();
    let mut i: usize = 0;
    assert(lines.take(0) =~= seq![]);
    while i < items.len()
        invariant
            i <= items@.len(),
            lines == migration_lines(migration_views(items@)),
            out@ == joined_lines(lines.take(i as int)),
        decreases items@.len() - i,
    {
        let ghost before = out@;
        push_escaped(&mut out, items[i].cell.as_str());
        out.push('\t');
        push_escaped(&mut out, items[i].old.as_str());
        out.push('\t');
        push_escaped(&mut out, items[i].new.as_str());
        out.push('\n');
        proof {
            assert(out@ =~= before + lines[i as int].push('\n'));
            lemma_joined_snoc(lines.take(i as int), lines[i as int]);
            assert(lines.take(i + 1) =~= lines.take(i as int).push(lines[i as int]));
        }
        i = i + 1;
    }
    assert(lines.take(lines.len() as int) =~= lines);
    out
}

/// The migration that a line states, if it states one.
fn parse_migration(line: &str) -> (r: Option<MigrationRecord>)
    ensures
        match r {
            Some(m) => migration_of_line(line@) == Some(m@),
            None => migration_of_line(line@) is None,
        },
{
    let fields = split_at_all(line, '\t');
    assert(contents(fields@).len() == fields@.len());
    if fields.len() != 3 {
        return None;
    }
    assert(contents(fields@)[0] == fields@[0]@);
    assert(contents(fields@)[1] == fields@[1]@);
    assert(contents(fields@)[2] == fields@[2]@);
    match unescape_field(fields[0].as_str()) {
        None => None,
        Some(cell) => match unescape_field(fields[1].as_str()) {
            None => None,
            Some(old) => match unescape_field(fields[2].as_str()) {
                None => None,
                Some(new) => Some(MigrationRecord { cell, old, new }),
            },
        },
    }
}

/// The migrations that the `migrations` file states, or the first malformed
/// line.
pub fn parse_migrations(content: &str) -> (r: Result<Vec<MigrationRecord>, String>)
    ensures
        match migrations_of_lines(text_lines(content@)) {
            Ok(ms) => r is Ok && migration_views(r->Ok_0@) == ms,
            Err(line) => r is Err && r->Err_0@ == line,
        },
{
    let lines = lines_of(content);
    let ghost all = contents(lines@);
    let mut out: Vec<MigrationRecord> = Vec::new();
    let mut i: usize = 0;
    assert(all.take(0) =~= seq![]);
    assert(migration_views(out@) =~= seq![]);
    while i < lines.len()
        invariant
            i <= lines@.len(),
            all == contents(lines@),
            all == text_lines(content@),
            migrations_of_lines(all.take(i as int)) == Ok::<Seq<MigrationView>, Seq<char>>(
                migration_views(out@),
            ),
        decreases lines@.len() - i,
    {
        let line = &lines[i];
        proof {
            assert(all.take(i + 1).drop_last() =~= all.take(i as int));
            assert(all.take(i + 1).last() == line@);
            if migrations_of_lines(all.take(i + 1)) is Err {
                lemma_migrations_error_stays(all, i + 1);
            }
        }
        if line.as_str().is_empty() {
            i = i + 1;
            continue ;
        }
        match parse_migration(line.as_str()) {
            None => {
                return Err(owned(line.as_str()));
            },
            Some(m) => {
                let ghost before = migration_views(out@);
                out.push(m);
                assert(migration_views(out@) =~= before.push(m@));
            },
        }
        i = i + 1;
    }
    assert(all.take(all.len() as int) =~= all);
    Ok(out)
}

proof fn lemma_split_two(a: Seq<char>, b: Seq<char>, c: char)
    requires
        forall|i: int| 0 <= i < a.len() ==> a[i] != c,
    ensures
        split_all(a.push(c) + b, c) == seq![a] + split_all(b, c),
        split_all(a, c) == seq![a],
{
    let s = a.push(c) + b;
    assert(s =~= a + (seq![c] + b));
    index_from_behind(a, c, seq![c] + b, 0);
    assert(s.take(a.len() as int) =~= a);
    assert(s.skip((a.len() + 1) as int) =~= b);
    index_from_bounds(a, c, 0);
}

proof fn lemma_migration_line_reads_back(m: MigrationView)
    ensures
        plain_line(migration_line(m)),
        migration_line(m).len() > 0,
        migration_of_line(migration_line(m)) == Some(m),
{
    let a = escaped(m.cell);
    let b = escaped(m.old);
    let c = escaped(m.new);
    let line = migration_line(m);
    escaped_is_plain(m.cell);
    escaped_is_plain(m.old);
    escaped_is_plain(m.new);
    unescaping_undoes_escaping(m.cell);
    unescaping_undoes_escaping(m.old);
    unescaping_undoes_escaping(m.new);
    assert(line =~= a.push('\t') + (b.push('\t') + c));
    lemma_split_two(a, b.push('\t') + c, '\t');
    lemma_split_two(b, c, '\t');
    lemma_split_two(c, c, '\t');
    assert(split_all(line, '\t') =~= seq![a, b, c]);
    assert forall|i: int| 0 <= i < line.len() implies line[i] != '\n' && line[i] != '\r' by {
        if i < a.len() {
            assert(line[i] == a[i]);
        } else if a.len() < i < a.len() + 1 + b.len() {
            assert(line[i] == b[i - a.len() - 1]);
        } else if i > a.len() + 1 + b.len() {
            assert(line[i] == c[i - a.len() - b.len() - 2]);
        }
    }
}

proof fn lemma_migration_lines_fold(ms: Seq<MigrationView>, k: int)
    requires
        0 <= k <= ms.len(),
    ensures
        migrations_of_lines(migration_lines(ms).take(k)) == Ok::<Seq<MigrationView>, Seq<char>>(
            ms.take(k),
        ),
    decreases k,
{
    let lines = migration_lines(ms);
    if k == 0 {
        assert(lines.take(0) =~= seq![]);
        assert(ms.take(0) =~= seq![]);
    } else {
        lemma_migration_lines_fold(ms, k - 1);
        lemma_migration_line_reads_back(ms[k - 1]);
        assert(lines.take(k).drop_last() =~= lines.take(k - 1));
        assert(ms.take(k) =~= ms.take(k - 1).push(ms[k - 1]));
    }
}

/// The `migrations` file reads back as the migrations it was written for,
/// whatever characters they hold.
pub proof fn migrations_read_back(ms: Seq<MigrationView>)
    ensures
        migrations_of_lines(text_lines(joined_lines(migration_lines(ms)))) == Ok::<
            Seq<MigrationView>,
            Seq<char>,
        >(ms),
{
    let lines = migration_lines(ms);
    assert forall|i: int| 0 <= i < lines.len() implies plain_line(#[trigger] lines[i]) by {
        lemma_migration_line_reads_back(ms[i]);
    }
    lemma_lines_read_back(lines);
    lemma_migration_lines_fold(ms, ms.len() as int);
    assert(lines.take(lines.len() as int) =~= lines);
    assert(ms.take(ms.len() as int) =~= ms);
}

} // verus!
