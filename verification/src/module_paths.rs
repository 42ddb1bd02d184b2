//! Module paths: the names of modules as source code writes them.

use vstd::prelude::*;

use crate::order::text_same;
use crate::text::{owned, push_text};

verus! {

broadcast use vstd::string::group_string_axioms;

/// The characters of some texts.
pub open spec fn texts(s: Seq<String>) -> Seq<Seq<char>> {
    Seq::new(s.len(), |i: int| s[i]@)
}

/// The characters of some borrowed texts.
pub open spec fn str_texts(s: Seq<&str>) -> Seq<Seq<char>> {
    Seq::new(s.len(), |i: int| s[i]@)
}

/// Texts with `::` between them.
pub open spec fn joined(s: Seq<Seq<char>>) -> Seq<char>
    decreases s.len(),
{
    if s.len() == 0 {
        seq![]
    } else if s.len() == 1 {
        s[0]
    } else {
        joined(s.drop_last()) + "::"@ + s.last()
    }
}

/// Texts, each behind `::`, behind a prefix.
pub open spec fn appended(prefix: Seq<char>, s: Seq<Seq<char>>) -> Seq<char>
    decreases s.len(),
{
    if s.len() == 0 {
        prefix
    } else {
        appended(prefix, s.drop_last()) + "::"@ + s.last()
    }
}

/// Whether two lists of texts are the same.
pub fn texts_same(a: &Vec<String>, b: &Vec<String>) -> (r: bool)
    ensures
        r == (texts(a@) == texts(b@)),
{
    if a.len() != b.len() {
        assert(texts(a@).len() != texts(b@).len());
        return false;
    }
    let mut i: usize = 0;
    while i < a.len()
        invariant
            i <= a@.len(),
            a@.len() == b@.len(),
            forall|k: int| 0 <= k < i ==> texts(a@)[k] == texts(b@)[k],
        decreases a@.len() - i,
    {
        if !text_same(a[i].as_str(), b[i].as_str()) {
            assert(texts(a@)[i as int] != texts(b@)[i as int]);
            return false;
        }
        i = i + 1;
    }
    assert(texts(a@) =~= texts(b@));
    true
}

/// Whether a text is one of some texts.
pub fn contains_text(s: &Vec<String>, text: &str) -> (r: bool)
    ensures
        r == texts(s@).contains(text@),
{
    let mut i: usize = 0;
    while i < s.len()
        invariant
            i <= s@.len(),
            forall|k: int| 0 <= k < i ==> texts(s@)[k] != text@,
        decreases s@.len() - i,
    {
        if text_same(s[i].as_str(), text) {
            assert(texts(s@)[i as int] == text@);
            return true;
        }
        i = i + 1;
    }
    false
}

/// A copy of some texts.
pub fn copy_texts(s: &Vec<String>) -> (r: Vec<String>)
    ensures
        texts(r@) == texts(s@),
{
    copy_texts_from(s, 0)
}

/// A copy of the texts from a position on.
pub fn copy_texts_from(s: &Vec<String>, from: usize) -> (r: Vec<String>)
    requires
        from <= s@.len(),
    ensures
        texts(r@) == texts(s@).skip(from as int),
{
    let mut out: Vec<String> = Vec::new();
    let mut i: usize = from;
    while i < s.len()
        invariant
            from <= i <= s@.len(),
            texts(out@) == texts(s@).subrange(from as int, i as int),
        decreases s@.len() - i,
    {
        let ghost was = texts(out@);
        out.push(owned(s[i].as_str()));
        assert(texts(out@) =~= was.push(s@[i as int]@));
        i = i + 1;
        assert(texts(out@) =~= texts(s@).subrange(from as int, i as int));
    }
    assert(texts(out@) =~= texts(s@).skip(from as int));
    out
}

/// Owned copies of the borrowed texts from a position on.
pub fn own_texts_from(s: &[&str], from: usize) -> (r: Vec<String>)
    requires
        from <= s@.len(),
    ensures
        texts(r@) == str_texts(s@).skip(from as int),
{
    let mut out: Vec<String> = Vec::new();
    let mut i: usize = from;
    while i < s.len()
        invariant
            from <= i <= s@.len(),
            texts(out@) == str_texts(s@).subrange(from as int, i as int),
        decreases s@.len() - i,
    {
        let ghost was = texts(out@);
        out.push(owned(s[i]));
        assert(texts(out@) =~= was.push(s@[i as int]@));
        i = i + 1;
        assert(texts(out@) =~= str_texts(s@).subrange(from as int, i as int));
    }
    assert(texts(out@) =~= str_texts(s@).skip(from as int));
    out
}

/// Texts with `::` between them.
pub fn join_texts(s: &Vec<String>) -> (r: String)
    ensures
        r@ == joined(texts(s@)),
{
    let ghost all = texts(s@);
    let mut out = owned("");
    if s.len() == 0 {
        proof {
            reveal_strlit("");
        }
        assert(out@ =~= seq![]);
        return out;
    }
    push_text(&mut out, s[0].as_str());
    proof {
        reveal_strlit("");
        assert(all.take(1)[0] == s@[0]@);
        assert(out@ =~= joined(all.take(1)));
    }
    let mut i: usize = 1;
    while i < s.len()
        invariant
            1 <= i <= s@.len(),
            all == texts(s@),
            out@ == joined(all.take(i as int)),
        decreases s@.len() - i,
    {
        assert(all.take(i + 1).drop_last() =~= all.take(i as int));
        push_text(&mut out, "::");
        push_text(&mut out, s[i].as_str());
        i = i + 1;
    }
    assert(all.take(s@.len() as int) =~= all);
    out
}

/// Put texts behind another, each behind `::`.
pub fn append_texts(out: &mut String, s: &Vec<String>)
    ensures
        final(out)@ == appended(old(out)@, texts(s@)),
{
    let ghost all = texts(s@);
    let ghost prefix = out@;
    let mut i: usize = 0;
    assert(all.take(0) =~= seq![]);
    while i < s.len()
        invariant
            i <= s@.len(),
            all == texts(s@),
            out@ == appended(prefix, all.take(i as int)),
        decreases s@.len() - i,
    {
        assert(all.take(i + 1).drop_last() =~= all.take(i as int));
        push_text(out, "::");
        push_text(out, s[i].as_str());
        i = i + 1;
    }
    assert(all.take(s@.len() as int) =~= all);
}

/// The path of a module: one segment or more.
#[derive(Debug, PartialEq, Eq, Hash, PartialOrd, Ord)]
pub struct ModulePath {
    /// The segments.
    pub segments: Vec<String>,
}

impl View for ModulePath {
    type V = Seq<Seq<char>>;

    open spec fn view(&self) -> Seq<Seq<char>> {
        texts(self.segments@)
    }
}

/// Whether a path lies in the reserved `core` library.
pub open spec fn is_core(path: Seq<Seq<char>>) -> bool {
    path.len() > 0 && path[0] == "core"@
}

impl ModulePath {
    /// The path of some segments; there is none without segments.
    pub fn from_segments(segments: Vec<String>) -> (r: Option<ModulePath>)
        ensures
            r is Some <==> segments@.len() > 0,
            r matches Some(p) ==> p@ == texts(segments@),
    {
        if segments.len() == 0 {
            None
        } else {
            Some(ModulePath { segments })
        }
    }

    /// The path of some borrowed segments; there is none without segments.
    pub fn from_str_segments(segments: &[&str]) -> (r: Option<ModulePath>)
        ensures
            r is Some <==> segments@.len() > 0,
            r matches Some(p) ==> p@ == str_texts(segments@),
    {
        let owned_segments = own_texts_from(segments, 0);
        assert(str_texts(segments@).skip(0) =~= str_texts(segments@));
        assert(texts(owned_segments@).len() == str_texts(segments@).len());
        ModulePath::from_segments(owned_segments)
    }

    /// Whether the path lies in the reserved `core` library, and the segments
    /// within its scope: behind `core` there, else all of them.
    pub fn scope_relative(&self) -> (r: (bool, Vec<String>))
        ensures
            r.0 == is_core(self@),
            texts(r.1@) == (if is_core(self@) {
                self@.skip(1)
            } else {
                self@
            }),
    {
        if self.segments.len() > 0 && text_same(self.segments[0].as_str(), "core") {
            (true, copy_texts_from(&self.segments, 1))
        } else {
            (false, copy_texts(&self.segments))
        }
    }

    /// The path as text.
    pub fn text(&self) -> (r: String)
        ensures
            r@ == joined(self@),
    {
        join_texts(&self.segments)
    }
}

} // verus!
