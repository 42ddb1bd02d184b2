//! What the declarations of a source export.

use vstd::prelude::*;

use crate::compiler::exports::{
    const_parts, function_parts, ident_char, ident_end, identifier, index_of_either, line_export,
    signature_end, without_pub, ExportView, ModuleExportKind,
};
use crate::text::{index_from, index_from_behind, strip_prefix, trim_keeps, white_space};

verus! {

// ── names ───────────────────────────────────────────────────────────────────

/// Whether text is an identifier.
pub open spec fn is_name(s: Seq<char>) -> bool {
    s.len() > 0 && forall|i: int|
        0 <= i < s.len() ==> ident_char(#[trigger] s[i]) && !white_space(s[i]) && s[i] != '('
            && s[i] != '<' && s[i] != ':' && s[i] != '='
}

proof fn lemma_name_end(s: Seq<char>, i: int)
    requires
        is_name(s),
        0 <= i <= s.len(),
    ensures
        ident_end(s, i) == s.len(),
    decreases s.len() - i,
{
    if i < s.len() {
        lemma_name_end(s, i + 1);
    }
}

/// An identifier is read as it stands.
pub proof fn identifiers_are_read_as_they_stand(s: Seq<char>)
    requires
        is_name(s),
    ensures
        identifier(s) == Some(s),
{
    trim_keeps(s);
    lemma_name_end(s, 0);
    assert(s.take(s.len() as int) =~= s);
}

proof fn lemma_either_behind(a: Seq<char>, b: Seq<char>, c: char, d: char, i: int)
    requires
        0 <= i <= a.len(),
        forall|j: int| 0 <= j < a.len() ==> a[j] != c && a[j] != d,
        b.len() > 0,
        b[0] == c || b[0] == d,
    ensures
        index_of_either(a + b, c, d, i) == a.len(),
    decreases a.len() - i,
{
    if i < a.len() {
        assert((a + b)[i] == a[i]);
        lemma_either_behind(a, b, c, d, i + 1);
    } else {
        assert((a + b)[i] == b[0]);
    }
}

/// Text that begins with other text differs from what does not.
proof fn lemma_not_begun(s: Seq<char>, prefix: Seq<char>, i: int)
    requires
        0 <= i < prefix.len(),
        i < s.len(),
        s[i] != prefix[i],
    ensures
        strip_prefix(s, prefix) is None,
{
}

proof fn lemma_begun(prefix: Seq<char>, rest: Seq<char>)
    ensures
        strip_prefix(prefix + rest, prefix) == Some(rest),
{
    assert(prefix.is_prefix_of(prefix + rest)) by {
        assert(prefix =~= (prefix + rest).subrange(0, prefix.len() as int));
    }
    assert((prefix + rest).skip(prefix.len() as int) =~= rest);
}

// ── types ───────────────────────────────────────────────────────────────────

/// The keyword of a declaration that exports a name and no signature.
pub open spec fn keyword(kind: ModuleExportKind) -> Seq<char> {
    match kind {
        ModuleExportKind::Type => "struct "@,
        ModuleExportKind::Enum => "enum "@,
        _ => "ability "@,
    }
}

/// A public declaration of a struct, an enum or an ability exports its name, as what
/// it is.
pub proof fn declarations_export_their_name(kind: ModuleExportKind, name: Seq<char>)
    requires
        is_name(name),
        kind == ModuleExportKind::Type || kind == ModuleExportKind::Enum || kind
            == ModuleExportKind::Ability,
    ensures
        line_export("pub "@ + keyword(kind) + name) == Some(
            ExportView { name, kind, signature: None },
        ),
{
    reveal_strlit("pub ");
    reveal_strlit("struct ");
    reveal_strlit("type ");
    reveal_strlit("enum ");
    reveal_strlit("ability ");
    reveal_strlit("pub ability ");
    reveal_strlit("pub fn ");
    reveal_strlit("fn ");
    reveal_strlit("const ");
    reveal_strlit("//");
    reveal_strlit("unique(");
    let word = keyword(kind);
    let decl = word + name;
    let line = "pub "@ + word + name;
    assert(line =~= "pub "@ + decl);
    assert(line[0] == 'p' && line.last() == name.last());
    trim_keeps(line);
    lemma_begun("pub "@, decl);
    assert(without_pub(line) == decl);
    assert(decl[0] == word[0] && decl[1] == word[1]);
    assert(decl[0] == word[0] && word[0] != 'u');
    lemma_not_begun(decl, "unique("@, 0);
    assert(line[4] == word[0] && line[1] == 'u');
    lemma_not_begun(line, "//"@, 0);
    lemma_not_begun(line, "pub fn "@, 4);
    lemma_not_begun(line, "fn "@, 0);
    lemma_not_begun(line, "const "@, 0);
    lemma_not_begun(decl, "type "@, 0);
    lemma_begun(word, name);
    identifiers_are_read_as_they_stand(name);
    if kind != ModuleExportKind::Type {
        lemma_not_begun(decl, "struct "@, 0);
    }
    if kind == ModuleExportKind::Ability {
        lemma_not_begun(decl, "enum "@, 0);
        assert("pub ability "@ =~= "pub "@ + word);
        lemma_begun("pub ability "@, name);
    }
}

// ── functions ───────────────────────────────────────────────────────────────

proof fn lemma_signature_end(s: Seq<char>, i: int, paren: int, angle: int)
    requires
        0 <= i <= s.len(),
        forall|j: int| i <= j < s.len() ==> s[j] != '{',
    ensures
        signature_end(s, i, paren, angle) == s.len(),
    decreases s.len() - i,
{
    if i < s.len() {
        lemma_signature_end(
            s,
            i + 1,
            if s[i] == '(' {
                paren + 1
            } else if s[i] == ')' {
                paren - 1
            } else {
                paren
            },
            if s[i] == '<' {
                angle + 1
            } else if s[i] == '>' && !(i > 0 && s[i - 1] == '-') {
                angle - 1
            } else {
                angle
            },
        );
    }
}

/// A public function exports its name as a function, with its signature: from the
/// opening parenthesis on, without what opens its body.
pub proof fn functions_export_their_signature(name: Seq<char>, sig: Seq<char>)
    requires
        is_name(name),
        sig.len() > 0,
        sig[0] == '(',
        !white_space(sig.last()),
        forall|i: int| 0 <= i < sig.len() ==> sig[i] != '{',
    ensures
        line_export("pub fn "@ + name + sig) == Some(
            ExportView { name, kind: ModuleExportKind::Function, signature: Some(sig) },
        ),
{
    reveal_strlit("pub fn ");
    reveal_strlit("//");
    let rest = name + sig;
    let line = "pub fn "@ + name + sig;
    assert(line =~= "pub fn "@ + rest);
    assert(line[0] == 'p' && line.last() == sig.last());
    trim_keeps(line);
    lemma_not_begun(line, "//"@, 0);
    lemma_begun("pub fn "@, rest);
    assert(rest[0] == name[0] && rest.last() == sig.last());
    trim_keeps(rest);
    lemma_either_behind(name, sig, '(', '<', 0);
    assert(rest.take(name.len() as int) =~= name);
    trim_keeps(name);
    index_from_behind(name, '(', sig, 0);
    assert(index_from(sig, '(', 0) == 0);
    assert forall|j: int| name.len() <= j < rest.len() implies rest[j] != '{' by {
        assert(rest[j] == sig[j - name.len()]);
    }
    lemma_signature_end(rest, name.len() as int, 0, 0);
    assert(rest.subrange(name.len() as int, rest.len() as int) =~= sig);
    trim_keeps(sig);
    assert(function_parts(rest) == Some((name, sig)));
}

// ── constants ───────────────────────────────────────────────────────────────

/// A constant exports its name as a constant, with its type.
pub proof fn constants_export_their_type(name: Seq<char>, ty: Seq<char>, init: Seq<char>)
    requires
        is_name(name),
        ty.len() > 0,
        !white_space(ty[0]),
        !white_space(ty.last()),
        forall|i: int| 0 <= i < ty.len() ==> ty[i] != '=',
        init.len() > 0,
        !white_space(init.last()),
    ensures
        line_export("const "@ + name + seq![':'] + ty + seq!['='] + init) == Some(
            ExportView { name, kind: ModuleExportKind::Const, signature: Some(ty) },
        ),
{
    reveal_strlit("const ");
    reveal_strlit("pub fn ");
    reveal_strlit("fn ");
    reveal_strlit("//");
    let tail = seq!['='] + init;
    let behind = seq![':'] + ty + tail;
    let rest = name + behind;
    let line = "const "@ + name + seq![':'] + ty + seq!['='] + init;
    assert(line =~= "const "@ + rest);
    assert(line[0] == 'c' && line.last() == init.last());
    trim_keeps(line);
    lemma_not_begun(line, "//"@, 0);
    lemma_not_begun(line, "pub fn "@, 0);
    lemma_not_begun(line, "fn "@, 0);
    lemma_begun("const "@, rest);
    assert(rest[0] == name[0] && rest.last() == init.last());
    trim_keeps(rest);
    let at = name.len() as int;
    lemma_either_behind(name, behind, ':', '=', 0);
    assert(rest[at] == ':');
    assert(rest.take(at) =~= name);
    trim_keeps(name);
    let head = name + seq![':'] + ty;
    assert(rest =~= head + tail);
    assert forall|i: int| at + 1 <= i < head.len() implies head[i] != '=' by {
        assert(head[i] == ty[i - at - 1]);
    }
    index_from_behind(head, '=', tail, at + 1);
    assert(index_from(tail, '=', 0) == 0);
    assert(rest.subrange(at + 1, head.len() as int) =~= ty);
    trim_keeps(ty);
    assert(const_parts(rest) == Some((name, Some(ty))));
}

/// A line that is a comment exports nothing.
pub proof fn comments_export_nothing(text: Seq<char>)
    requires
        text.len() > 0,
        !white_space(text.last()),
    ensures
        line_export("//"@ + text) is None,
{
    reveal_strlit("//");
    let line = "//"@ + text;
    assert(line[0] == '/' && line.last() == text.last());
    trim_keeps(line);
    lemma_begun("//"@, text);
}

} // verus!
