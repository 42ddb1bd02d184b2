//! What a module exports, read off its source line by line.
//!
//! This is a scan for the lines that declare something, not a parser: each line
//! stands for itself.

use vstd::prelude::*;

use crate::text::{
    chars_of, decimal_text, find_from, index_from, index_from_behind, index_from_bounds,
    is_white_space, lines_of, opt_text, owned, push_decimal, push_text, strip_prefix,
    stripped_prefix, text_between, text_lines, trim, trim_forgets_cr, trim_start, trimmed,
    without_cr,
};
use crate::wire::contents;

verus! {

broadcast use vstd::string::group_string_axioms;

/// What an exported name is.
#[derive(Debug, Clone, Copy, PartialEq, Eq, Structural)]
pub enum ModuleExportKind {
    /// A function.
    Function,
    /// A constant.
    Const,
    /// A type.
    Type,
    /// An enum.
    Enum,
    /// An ability.
    Ability,
    /// A module.
    Module,
}

/// An exported name.
#[derive(Debug)]
pub struct ModuleExport {
    /// The name.
    pub name: String,
    /// What it is.
    pub kind: ModuleExportKind,
    /// Its signature, where it is known.
    pub signature: Option<String>,
}

/// What a [`ModuleExport`] says.
pub struct ExportView {
    /// The name.
    pub name: Seq<char>,
    /// What it is.
    pub kind: ModuleExportKind,
    /// Its signature, where it is known.
    pub signature: Option<Seq<char>>,
}

impl View for ModuleExport {
    type V = ExportView;

    open spec fn view(&self) -> ExportView {
        ExportView {
            name: self.name@,
            kind: self.kind,
            signature: opt_text(self.signature),
        }
    }
}

impl ModuleExport {
    /// An exported name without a signature.
    pub fn new(name: &str, kind: ModuleExportKind) -> (r: ModuleExport)
        ensures
            r@ == (ExportView { name: name@, kind, signature: None }),
    {
        ModuleExport { name: owned(name), kind, signature: None }
    }

    /// An exported name with its signature.
    pub fn with_signature(name: &str, kind: ModuleExportKind, signature: String) -> (r:
        ModuleExport)
        ensures
            r@ == (ExportView { name: name@, kind, signature: Some(signature@) }),
    {
        ModuleExport { name: owned(name), kind, signature: Some(signature) }
    }
}

/// What exported names say.
pub open spec fn export_views(s: Seq<ModuleExport>) -> Seq<ExportView> {
    Seq::new(s.len(), |i: int| s[i]@)
}

/// A module as a value: its path and what it exports.
#[derive(Debug)]
pub struct ModuleValue {
    /// The path.
    pub path: String,
    /// What it exports.
    pub exports: Vec<ModuleExport>,
}

/// What a [`ModuleValue`] says.
pub struct ModuleValueView {
    /// The path.
    pub path: Seq<char>,
    /// What it exports.
    pub exports: Seq<ExportView>,
}

impl View for ModuleValue {
    type V = ModuleValueView;

    open spec fn view(&self) -> ModuleValueView {
        ModuleValueView { path: self.path@, exports: export_views(self.exports@) }
    }
}

impl ModuleValue {
    /// A module.
    pub fn new(path: &str, exports: Vec<ModuleExport>) -> (r: ModuleValue)
        ensures
            r@ == (ModuleValueView { path: path@, exports: export_views(exports@) }),
    {
        ModuleValue { path: owned(path), exports }
    }
}

// ── identifiers ─────────────────────────────────────────────────────────────

/// Whether a character is alphabetic or numeric.
pub uninterp spec fn alphanumeric(c: char) -> bool;

/// Calls `char::is_alphanumeric`, which says of a character whether it is
/// alphabetic or numeric by the Unicode tables of the standard library. Among the
/// ASCII characters these are the letters and the digits.
#[verifier::external_body]
fn is_alphanumeric(c: char) -> (r: bool)
    ensures
        r == alphanumeric(c),
        c < '\u{80}' ==> r == ('0' <= c <= '9' || 'a' <= c <= 'z' || 'A' <= c <= 'Z'),
{
    c.is_alphanumeric()
}

/// Whether a character can stand in an identifier.
pub open spec fn ident_char(c: char) -> bool {
    alphanumeric(c) || c == '_'
}

/// Where the identifier that starts at a position ends.
pub open spec fn ident_end(s: Seq<char>, i: int) -> int
    decreases s.len() - i,
{
    if i < 0 || i >= s.len() {
        s.len() as int
    } else if ident_char(s[i]) {
        ident_end(s, i + 1)
    } else {
        i
    }
}

/// The identifier that text begins with, behind white space.
pub open spec fn identifier(s: Seq<char>) -> Option<Seq<char>> {
    let t = trim(s);
    let end = ident_end(t, 0);
    if end > 0 {
        Some(t.take(end))
    } else {
        None
    }
}

/// The identifier that text begins with, behind white space.
fn extract_identifier(s: &str) -> (r: Option<String>)
    ensures
        match identifier(s@) {
            Some(t) => r matches Some(u) && u@ == t,
            None => r is None,
        },
{
    let t = trimmed(s);
    let chars = chars_of(t.as_str());
    let ghost all = chars@;
    let mut end: usize = 0;
    while end < chars.len() && is_alphanumeric_or_underscore(chars[end])
        invariant
            end <= chars@.len(),
            all == chars@,
            ident_end(all, 0) == ident_end(all, end as int),
        decreases chars@.len() - end,
    {
        end = end + 1;
    }
    assert(ident_end(all, end as int) == end);
    if end > 0 {
        let r = text_between(chars.as_slice(), 0, end);
        assert(r@ =~= all.take(end as int));
        Some(r)
    } else {
        None
    }
}

/// Whether a character can stand in an identifier.
fn is_alphanumeric_or_underscore(c: char) -> (r: bool)
    ensures
        r == ident_char(c),
{
    is_alphanumeric(c) || c == '_'
}

// ── signatures ──────────────────────────────────────────────────────────────

/// The first position of one of two characters at or behind a position, or the
/// length where there is none.
pub open spec fn index_of_either(s: Seq<char>, a: char, b: char, i: int) -> int
    decreases s.len() - i,
{
    if i < 0 || i >= s.len() {
        s.len() as int
    } else if s[i] == a || s[i] == b {
        i
    } else {
        index_of_either(s, a, b, i + 1)
    }
}

/// The first position of one of two characters, or the length where there is
/// none.
fn find_either(chars: &Vec<char>, a: char, b: char) -> (r: usize)
    ensures
        r == index_of_either(chars@, a, b, 0),
        r <= chars@.len(),
{
    let ghost all = chars@;
    let mut i: usize = 0;
    while i < chars.len() && chars[i] != a && chars[i] != b
        invariant
            i <= chars@.len(),
            all == chars@,
            index_of_either(all, a, b, 0) == index_of_either(all, a, b, i as int),
        decreases chars@.len() - i,
    {
        i = i + 1;
    }
    i
}

/// Where a function's signature ends: just before the first opening brace that is
/// in no open parentheses or angle brackets, or at the end of the text. The `>` of
/// an arrow closes no bracket.
pub open spec fn signature_end(s: Seq<char>, i: int, paren: int, angle: int) -> int
    decreases s.len() - i,
{
    if i < 0 || i >= s.len() {
        s.len() as int
    } else if s[i] == '{' && paren == 0 && angle == 0 {
        i
    } else {
        signature_end(
            s,
            i + 1,
            if s[i] == '(' {
                paren + 1
            } else if s[i] == ')' {
                paren - 1
            } else {
                paren
            },
            if s[i] == '<' {
                angle + 1
            } else if s[i] == '>' && !(i > 0 && s[i - 1] == '-') {
                angle - 1
            } else {
                angle
            },
        )
    }
}

/// Where a function's signature that starts at a position ends.
fn find_signature_end(chars: &Vec<char>, start: usize) -> (r: usize)
    requires
        start <= chars@.len(),
    ensures
        r == signature_end(chars@, start as int, 0, 0),
        start <= r <= chars@.len(),
{
    let ghost all = chars@;
    let mut i: usize = start;
    let mut paren: i128 = 0;
    let mut angle: i128 = 0;
    while i < chars.len()
        invariant
            start <= i <= chars@.len(),
            all == chars@,
            -(i - start) <= paren <= i - start,
            -(i - start) <= angle <= i - start,
            signature_end(all, start as int, 0, 0) == signature_end(
                all,
                i as int,
                paren as int,
                angle as int,
            ),
        decreases chars@.len() - i,
    {
        let c = chars[i];
        if c == '{' && paren == 0 && angle == 0 {
            return i;
        }
        if c == '(' {
            paren = paren + 1;
        } else if c == ')' {
            paren = paren - 1;
        }
        if c == '<' {
            angle = angle + 1;
        } else if c == '>' && !(i > 0 && chars[i - 1] == '-') {
            angle = angle - 1;
        }
        i = i + 1;
    }
    i
}

/// Text without the opening braces it ends with.
pub open spec fn without_braces(s: Seq<char>) -> Seq<char>
    decreases s.len(),
{
    if s.len() > 0 && s.last() == '{' {
        without_braces(s.drop_last())
    } else {
        s
    }
}

/// Text without the opening braces it ends with.
fn strip_braces(s: &str) -> (r: String)
    ensures
        r@ == without_braces(s@),
{
    let chars = chars_of(s);
    let ghost all = chars@;
    let mut n: usize = chars.len();
    assert(all.take(n as int) =~= all);
    while n > 0 && chars[n - 1] == '{'
        invariant
            n <= chars@.len(),
            all == chars@,
            without_braces(all) == without_braces(all.take(n as int)),
        decreases n,
    {
        assert(all.take(n as int).drop_last() =~= all.take(n - 1));
        n = n - 1;
    }
    let r = text_between(chars.as_slice(), 0, n);
    assert(r@ =~= all.take(n as int));
    r
}

/// The name and signature of a function, from the text behind its keyword.
pub open spec fn function_parts(s: Seq<char>) -> Option<(Seq<char>, Seq<char>)> {
    let t = trim(s);
    let name = trim(t.take(index_of_either(t, '(', '<', 0)));
    let open = index_from(t, '(', 0);
    if name.len() == 0 || open >= t.len() {
        None
    } else {
        let sig = trim(t.subrange(open, signature_end(t, open, 0, 0)));
        if sig.len() > 0 && sig.last() == '{' {
            Some((name, trim(without_braces(sig))))
        } else {
            Some((name, sig))
        }
    }
}

/// Whether text ends with an opening brace.
fn ends_with_brace(s: &str) -> (r: bool)
    ensures
        r == (s@.len() > 0 && s@.last() == '{'),
{
    let chars = chars_of(s);
    chars.len() > 0 && chars[chars.len() - 1] == '{'
}

/// The name and signature of a function, from the text behind its keyword.
fn extract_function_signature(s: &str) -> (r: Option<(String, String)>)
    ensures
        match function_parts(s@) {
            Some((n, g)) => r matches Some((a, b)) && a@ == n && b@ == g,
            None => r is None,
        },
{
    let t = trimmed(s);
    let chars = chars_of(t.as_str());
    let ghost all = chars@;
    let end: usize = find_either(&chars, '(', '<');
    let head = text_between(chars.as_slice(), 0, end);
    assert(head@ =~= all.take(end as int));
    let name = trimmed(head.as_str());
    let open: usize = find_from(chars.as_slice(), '(', 0);
    if is_empty(name.as_str()) || open >= chars.len() {
        return None;
    }
    let close: usize = find_signature_end(&chars, open);
    let whole = text_between(chars.as_slice(), open, close);
    let sig = trimmed(whole.as_str());
    if ends_with_brace(sig.as_str()) {
        let stripped = strip_braces(sig.as_str());
        let rest = trimmed(stripped.as_str());
        return Some((name, rest));
    }
    Some((name, sig))
}

/// Whether text is empty.
fn is_empty(s: &str) -> (r: bool)
    ensures
        r == (s@.len() == 0),
{
    let chars = chars_of(s);
    chars.len() == 0
}

/// The name and type of a constant, from the text behind its keyword.
pub open spec fn const_parts(s: Seq<char>) -> Option<(Seq<char>, Option<Seq<char>>)> {
    let t = trim(s);
    let at = index_of_either(t, ':', '=', 0);
    let name = trim(t.take(at));
    if at >= t.len() || name.len() == 0 {
        None
    } else if t[at] == ':' {
        let equals = index_from(t, '=', at + 1);
        let ty = trim(t.subrange(at + 1, equals));
        if equals >= t.len() {
            None
        } else if ty.len() == 0 {
            Some((name, None))
        } else {
            Some((name, Some(ty)))
        }
    } else {
        Some((name, None))
    }
}

/// The name and type of a constant, from the text behind its keyword.
fn extract_const_signature(s: &str) -> (r: Option<(String, Option<String>)>)
    ensures
        match const_parts(s@) {
            Some((n, ty)) => r matches Some((a, b)) && a@ == n && opt_text(b) == ty,
            None => r is None,
        },
{
    let t = trimmed(s);
    let chars = chars_of(t.as_str());
    let ghost all = chars@;
    let at: usize = find_either(&chars, ':', '=');
    if at >= chars.len() {
        return None;
    }
    let head = text_between(chars.as_slice(), 0, at);
    assert(head@ =~= all.take(at as int));
    let name = trimmed(head.as_str());
    if is_empty(name.as_str()) {
        return None;
    }
    if chars[at] == ':' {
        let equals: usize = find_from(chars.as_slice(), '=', at + 1);
        if equals >= chars.len() {
            return None;
        }
        let middle = text_between(chars.as_slice(), at + 1, equals);
        let ty = trimmed(middle.as_str());
        if is_empty(ty.as_str()) {
            return Some((name, None));
        }
        return Some((name, Some(ty)));
    }
    Some((name, None))
}

// ── declarations ────────────────────────────────────────────────────────────

/// A declaration without the identity it begins with, if it begins with one.
pub open spec fn without_identity(line: Seq<char>) -> Seq<char> {
    match strip_prefix(line, "unique("@) {
        None => line,
        Some(after) => {
            let close = index_from(after, ')', 0);
            if close < after.len() {
                trim_start(after.skip(close + 1))
            } else {
                line
            }
        },
    }
}

/// Text without the white space it begins with.
fn trimmed_start(s: &str) -> (r: String)
    ensures
        r@ == trim_start(s@),
{
    let chars = chars_of(s);
    let ghost all = chars@;
    let mut from: usize = 0;
    assert(all.skip(0) =~= all);
    while from < chars.len() && is_white_space(chars[from])
        invariant
            from <= chars@.len(),
            all == chars@,
            trim_start(all) == trim_start(all.skip(from as int)),
        decreases chars@.len() - from,
    {
        assert(all.skip(from as int).drop_first() =~= all.skip(from + 1));
        from = from + 1;
    }
    let r = text_between(chars.as_slice(), from, chars.len());
    assert(r@ =~= all.skip(from as int));
    r
}

/// A declaration without the identity it begins with.
fn strip_unique_prefix(line: &str) -> (r: String)
    ensures
        r@ == without_identity(line@),
{
    let after = match stripped_prefix(line, "unique(") {
        Some(a) => a,
        None => {
            return owned(line);
        },
    };
    let chars = chars_of(after.as_str());
    let close: usize = find_from(chars.as_slice(), ')', 0);
    if close < chars.len() {
        let rest = text_between(chars.as_slice(), close + 1, chars.len());
        assert(rest@ =~= after@.skip(close + 1));
        return trimmed_start(rest.as_str());
    }
    owned(line)
}

/// Whether text holds other text.
pub open spec fn holds(s: Seq<char>, t: Seq<char>) -> bool {
    exists|i: int| 0 <= i <= s.len() && #[trigger] t.is_prefix_of(s.skip(i))
}

/// Whether text holds other text.
fn holds_text(s: &str, t: &str) -> (r: bool)
    ensures
        r == holds(s@, t@),
{
    let chars = chars_of(s);
    let ghost all = chars@;
    let mut i: usize = 0;
    while i < chars.len()
        invariant
            i <= chars@.len(),
            all == chars@,
            all == s@,
            forall|k: int| 0 <= k < i ==> !#[trigger] t@.is_prefix_of(all.skip(k)),
        decreases chars@.len() - i,
    {
        let rest = text_between(chars.as_slice(), i, chars.len());
        assert(rest@ =~= all.skip(i as int));
        if stripped_prefix(rest.as_str(), t).is_some() {
            assert(t@.is_prefix_of(all.skip(i as int)));
            return true;
        }
        i = i + 1;
    }
    if is_empty(t) {
        assert(t@.is_prefix_of(all.skip(all.len() as int)));
        return true;
    }
    assert(!t@.is_prefix_of(all.skip(all.len() as int)));
    false
}

/// What a function exports.
pub open spec fn function_export(rest: Seq<char>) -> Option<ExportView> {
    match function_parts(rest) {
        Some((name, sig)) => Some(
            ExportView { name, kind: ModuleExportKind::Function, signature: Some(sig) },
        ),
        None => None,
    }
}

/// What a declaration of a kind exports, by the identifier behind its keyword.
pub open spec fn named_export(rest: Seq<char>, kind: ModuleExportKind) -> Option<ExportView> {
    match identifier(rest) {
        Some(name) => Some(ExportView { name, kind, signature: None }),
        None => None,
    }
}

/// What a function without `pub` exports: nothing where its name marks it as a
/// helper.
pub open spec fn open_function_export(rest: Seq<char>) -> Option<ExportView> {
    match function_parts(rest) {
        Some((name, sig)) => if holds(name, "_helper"@) || (name.len() > 0 && name[0] == '_') {
            None
        } else {
            Some(ExportView { name, kind: ModuleExportKind::Function, signature: Some(sig) })
        },
        None => None,
    }
}

/// What a constant exports.
pub open spec fn const_export(rest: Seq<char>) -> Option<ExportView> {
    match const_parts(rest) {
        Some((name, ty)) => Some(
            ExportView { name, kind: ModuleExportKind::Const, signature: ty },
        ),
        None => None,
    }
}

/// What follows `pub `, where text begins with it, else the text.
pub open spec fn without_pub(line: Seq<char>) -> Seq<char> {
    match strip_prefix(line, "pub "@) {
        Some(rest) => rest,
        None => line,
    }
}

/// What a line of source exports.
pub open spec fn line_export(raw: Seq<char>) -> Option<ExportView> {
    let line = trim(raw);
    let decl = without_identity(without_pub(line));
    if strip_prefix(line, "//"@) is Some || line.len() == 0 {
        None
    } else if let Some(rest) = strip_prefix(line, "pub fn "@) {
        function_export(rest)
    } else if let Some(rest) = strip_prefix(line, "fn "@) {
        open_function_export(rest)
    } else if let Some(rest) = strip_prefix(line, "const "@) {
        const_export(rest)
    } else if let Some(rest) = strip_prefix(decl, "struct "@) {
        named_export(rest, ModuleExportKind::Type)
    } else if let Some(rest) = strip_prefix(decl, "type "@) {
        named_export(rest, ModuleExportKind::Type)
    } else if let Some(rest) = strip_prefix(decl, "enum "@) {
        named_export(rest, ModuleExportKind::Enum)
    } else if let Some(rest) = strip_prefix(line, "pub ability "@) {
        named_export(rest, ModuleExportKind::Ability)
    } else if let Some(rest) = strip_prefix(line, "ability "@) {
        named_export(rest, ModuleExportKind::Ability)
    } else {
        None
    }
}

/// What lines of source export, in order.
pub open spec fn line_exports(lines: Seq<Seq<char>>) -> Seq<ExportView>
    decreases lines.len(),
{
    if lines.len() == 0 {
        seq![]
    } else {
        let before = line_exports(lines.drop_last());
        match line_export(lines.last()) {
            Some(e) => before.push(e),
            None => before,
        }
    }
}

/// Whether an export is the expected one.
spec fn exported(want: Option<ExportView>, r: Option<ModuleExport>) -> bool {
    match want {
        Some(e) => r matches Some(x) && x@ == e,
        None => r is None,
    }
}

/// What a declaration of a kind exports.
fn export_named(rest: &str, kind: ModuleExportKind) -> (r: Option<ModuleExport>)
    ensures
        exported(named_export(rest@, kind), r),
{
    match extract_identifier(rest) {
        Some(name) => Some(ModuleExport::new(name.as_str(), kind)),
        None => None,
    }
}

/// What a function exports.
fn export_function(rest: &str) -> (r: Option<ModuleExport>)
    ensures
        exported(function_export(rest@), r),
{
    match extract_function_signature(rest) {
        Some((name, sig)) => Some(
            ModuleExport::with_signature(name.as_str(), ModuleExportKind::Function, sig),
        ),
        None => None,
    }
}

/// What a function without `pub` exports.
fn export_open_function(rest: &str) -> (r: Option<ModuleExport>)
    ensures
        exported(open_function_export(rest@), r),
{
    match extract_function_signature(rest) {
        Some((name, sig)) => {
            let chars = chars_of(name.as_str());
            if holds_text(name.as_str(), "_helper") || (chars.len() > 0 && chars[0] == '_') {
                None
            } else {
                Some(ModuleExport::with_signature(name.as_str(), ModuleExportKind::Function, sig))
            }
        },
        None => None,
    }
}

/// What a constant exports.
fn export_const(rest: &str) -> (r: Option<ModuleExport>)
    ensures
        exported(const_export(rest@), r),
{
    match extract_const_signature(rest) {
        Some((name, Some(ty))) => Some(
            ModuleExport::with_signature(name.as_str(), ModuleExportKind::Const, ty),
        ),
        Some((name, None)) => Some(ModuleExport::new(name.as_str(), ModuleExportKind::Const)),
        None => None,
    }
}

/// What a line of source exports.
fn export_line(raw: &str) -> (r: Option<ModuleExport>)
    ensures
        exported(line_export(raw@), r),
{
    let line = trimmed(raw);
    if stripped_prefix(line.as_str(), "//").is_some() || is_empty(line.as_str()) {
        return None;
    }
    let bare = match stripped_prefix(line.as_str(), "pub ") {
        Some(rest) => rest,
        None => owned(line.as_str()),
    };
    let decl = strip_unique_prefix(bare.as_str());
    if let Some(rest) = stripped_prefix(line.as_str(), "pub fn ") {
        return export_function(rest.as_str());
    }
    if let Some(rest) = stripped_prefix(line.as_str(), "fn ") {
        return export_open_function(rest.as_str());
    }
    if let Some(rest) = stripped_prefix(line.as_str(), "const ") {
        return export_const(rest.as_str());
    }
    if let Some(rest) = stripped_prefix(decl.as_str(), "struct ") {
        return export_named(rest.as_str(), ModuleExportKind::Type);
    }
    if let Some(rest) = stripped_prefix(decl.as_str(), "type ") {
        return export_named(rest.as_str(), ModuleExportKind::Type);
    }
    if let Some(rest) = stripped_prefix(decl.as_str(), "enum ") {
        return export_named(rest.as_str(), ModuleExportKind::Enum);
    }
    if let Some(rest) = stripped_prefix(line.as_str(), "pub ability ") {
        return export_named(rest.as_str(), ModuleExportKind::Ability);
    }
    if let Some(rest) = stripped_prefix(line.as_str(), "ability ") {
        return export_named(rest.as_str(), ModuleExportKind::Ability);
    }
    None
}

/// What the source of a module exports, in order.
pub fn parse_module_exports(source: &str) -> (r: Vec<ModuleExport>)
    ensures
        export_views(r@) == line_exports(text_lines(source@)),
{
    let lines = lines_of(source);
    let ghost all = contents(lines@);
    let mut out: Vec<ModuleExport> = Vec::new();
    let mut i: usize = 0;
    assert(all.take(0) =~= seq![]);
    assert(export_views(out@) =~= seq![]);
    while i < lines.len()
        invariant
            i <= lines@.len(),
            all == contents(lines@),
            export_views(out@) == line_exports(all.take(i as int)),
        decreases lines@.len() - i,
    {
        assert(all.take(i + 1).drop_last() =~= all.take(i as int));
        assert(all.take(i + 1).last() == lines@[i as int]@);
        let ghost was = export_views(out@);
        if let Some(e) = export_line(lines[i].as_str()) {
            let ghost view = e@;
            out.push(e);
            assert(export_views(out@) =~= was.push(view));
        }
        i = i + 1;
    }
    assert(all.take(all.len() as int) =~= all);
    out
}

/// What a first line exports comes before what the other lines export.
proof fn lemma_line_exports_cons(line: Seq<char>, tail: Seq<Seq<char>>)
    ensures
        line_exports(seq![line] + tail) == match line_export(line) {
            Some(e) => seq![e] + line_exports(tail),
            None => line_exports(tail),
        },
    decreases tail.len(),
{
    let all = seq![line] + tail;
    if tail.len() == 0 {
        assert(all =~= seq![line]);
        assert(all.drop_last() =~= seq![]);
        assert(line_exports(seq![]) =~= seq![]);
        assert(line_exports(all) =~= match line_export(line) {
            Some(e) => seq![e] + line_exports(tail),
            None => line_exports(tail),
        });
    } else {
        assert(all.drop_last() =~= seq![line] + tail.drop_last());
        assert(all.last() == tail.last());
        lemma_line_exports_cons(line, tail.drop_last());
        assert(line_exports(all) =~= match line_export(line) {
            Some(e) => seq![e] + line_exports(tail),
            None => line_exports(tail),
        });
    }
}

/// A carriage return at the end of a line exports nothing.
proof fn lemma_cr_is_not_exported(line: Seq<char>)
    ensures
        line_export(without_cr(line)) == line_export(line),
{
    trim_forgets_cr(line);
}

/// What two pieces of source export, one below the other, is what the first
/// exports and then what the second exports: no declaration is split over a line
/// break, and none is looked for across it.
pub proof fn joined_sources_export_in_turn(a: Seq<char>, b: Seq<char>)
    ensures
        line_exports(text_lines(a.push('\n') + b)) == line_exports(text_lines(a)) + line_exports(
            text_lines(b),
        ),
    decreases a.len(),
{
    let s = a.push('\n') + b;
    let end = index_from(a, '\n', 0);
    let rest = seq!['\n'] + b;
    index_from_bounds(a, '\n', 0);
    assert(s =~= a + rest);
    if end < a.len() {
        let head = a.take(end);
        let below = a.skip(end);
        assert(a =~= head + below);
        assert(s =~= head + (below + rest));
        index_from_behind(head, '\n', below + rest, 0);
        assert((below + rest)[0] == '\n');
        assert(index_from(below + rest, '\n', 0) == 0);
        assert(s.take(end) =~= head);
        assert(s.skip(end + 1) =~= a.skip(end + 1).push('\n') + b);
        joined_sources_export_in_turn(a.skip(end + 1), b);
        lemma_line_exports_cons(without_cr(head), text_lines(a.skip(end + 1)));
        lemma_line_exports_cons(without_cr(head), text_lines(s.skip(end + 1)));
        assert(line_exports(text_lines(s)) =~= line_exports(text_lines(a)) + line_exports(
            text_lines(b),
        ));
    } else {
        index_from_behind(a, '\n', rest, 0);
        assert(index_from(rest, '\n', 0) == 0);
        assert(s.take(a.len() as int) =~= a);
        assert(s.skip(end + 1) =~= b);
        lemma_line_exports_cons(without_cr(a), text_lines(b));
        lemma_cr_is_not_exported(a);
        if a.len() == 0 {
            assert(trim(a) =~= seq![]);
            assert(line_exports(text_lines(a)) =~= seq![]);
        } else {
            lemma_line_exports_cons(a, seq![]);
            assert(seq![a] + seq![] =~= text_lines(a));
            assert(line_exports(seq![]) =~= seq![]);
        }
        assert(line_exports(text_lines(s)) =~= line_exports(text_lines(a)) + line_exports(
            text_lines(b),
        ));
    }
}

// ── signatures of built-in functions ────────────────────────────────────────

/// The first `n` argument names, with a comma between them.
pub open spec fn argument_names(n: nat) -> Seq<char>
    decreases n,
{
    if n == 0 {
        seq![]
    } else if n == 1 {
        "arg"@ + decimal_text(0)
    } else {
        argument_names((n - 1) as nat) + ", "@ + "arg"@ + decimal_text((n - 1) as nat)
    }
}

/// A signature that shows the number of arguments alone.
pub open spec fn arity_signature(arity: u8) -> Seq<char> {
    "("@ + argument_names(arity as nat) + ")"@
}

/// A signature that shows the number of arguments alone.
pub fn generate_intrinsic_signature(arity: u8) -> (r: String)
    ensures
        r@ == arity_signature(arity),
{
    let mut out = owned("(");
    let mut i: u8 = 0;
    assert(out@ =~= "("@ + argument_names(0));
    while i < arity
        invariant
            i <= arity,
            out@ == "("@ + argument_names(i as nat),
        decreases arity - i,
    {
        if i > 0 {
            push_text(&mut out, ", ");
        }
        push_text(&mut out, "arg");
        push_decimal(&mut out, i as u64);
        assert(out@ =~= "("@ + argument_names((i + 1) as nat));
        i = i + 1;
    }
    push_text(&mut out, ")");
    out
}

} // verus!
