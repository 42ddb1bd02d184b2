//! Compile-order edges from type-directed dispatch.
//!
//! A method call, an overloaded operator and an associated call are linked
//! against the compiled body of the callee under a dispatch symbol. The module
//! that defines the symbol therefore has to be compiled first. These references
//! are found by the checker from types, so they are no imports; the edges are
//! read off the checked modules here.

use vstd::prelude::*;

use crate::ast::{Expr, ExprKind, ImplMethod, Item, ItemKind, Module, ResolvedMethod};
use crate::compiler::items::referents;
use crate::expr_walk::{bodies, item_bodies, part_is_smaller, parts, parts_of};
use crate::module_paths::texts;
use crate::order::text_same;
use crate::ordmap::OrdMap;
use crate::text::{chars_of, owned};

verus! {

broadcast use vstd::string::group_string_axioms;

// ── symbols ─────────────────────────────────────────────────────────────────

/// Whether text holds `::`.
pub open spec fn has_separator(s: Seq<char>) -> bool {
    exists|i: int| 0 <= i < s.len() - 1 && #[trigger] s[i] == ':' && s[i + 1] == ':'
}

/// The dispatch symbol that an expression itself refers to: that of a method
/// call or of an operator, or the name that an associated call was turned into.
pub open spec fn own_symbol(e: Expr) -> Option<Seq<char>> {
    match e.kind {
        ExprKind::MethodCall { receiver: _, method: _, args: _, resolved_method } => match resolved_method {
            Some(ResolvedMethod::Symbol(s)) => Some(s@),
            _ => None,
        },
        ExprKind::Binary { op: _, left: _, right: _, resolved_op } => match resolved_op {
            Some(ResolvedMethod::Symbol(s)) => Some(s@),
            _ => None,
        },
        ExprKind::Name(n) => if n.path@.len() == 0 && has_separator(n.name@) {
            Some(n.name@)
        } else {
            None
        },
        _ => None,
    }
}

/// The dispatch symbols that the first parts of an expression refer to.
pub open spec fn symbols_of_parts(e: Expr, n: nat) -> Seq<Seq<char>>
    decreases e, n,
{
    if n == 0 || n > parts(e).len() {
        seq![]
    } else {
        proof {
            part_is_smaller(e, n - 1);
        }
        symbols_of_parts(e, (n - 1) as nat) + symbols_in(parts(e)[n - 1])
    }
}

/// The dispatch symbols that an expression refers to.
pub open spec fn symbols_in(e: Expr) -> Seq<Seq<char>>
    decreases e, parts(e).len() + 1,
{
    let own = match own_symbol(e) {
        Some(s) => seq![s],
        None => seq![],
    };
    own + symbols_of_parts(e, parts(e).len())
}

/// The dispatch symbols that expressions refer to.
pub open spec fn symbols_in_all(s: Seq<Expr>) -> Seq<Seq<char>>
    decreases s.len(),
{
    if s.len() == 0 {
        seq![]
    } else {
        symbols_in_all(s.drop_last()) + symbols_in(s.last())
    }
}

/// The dispatch symbols that items refer to.
pub open spec fn referenced(items: Seq<Item>) -> Seq<Seq<char>>
    decreases items.len(),
{
    if items.len() == 0 {
        seq![]
    } else {
        referenced(items.drop_last()) + symbols_in_all(bodies(items.last()))
    }
}

/// The dispatch symbols of methods.
pub open spec fn method_symbols(s: Seq<ImplMethod>) -> Seq<Seq<char>>
    decreases s.len(),
{
    if s.len() == 0 {
        seq![]
    } else {
        match s.last().resolved_symbol {
            Some(n) => method_symbols(s.drop_last()).push(n@),
            None => method_symbols(s.drop_last()),
        }
    }
}

/// The dispatch symbols that items define: those of the methods of impls.
pub open spec fn defined(items: Seq<Item>) -> Seq<Seq<char>>
    decreases items.len(),
{
    if items.len() == 0 {
        seq![]
    } else {
        match items.last().kind {
            ItemKind::Impl(d) => defined(items.drop_last()) + method_symbols(d.methods@),
            _ => defined(items.drop_last()),
        }
    }
}

// ── edges ───────────────────────────────────────────────────────────────────

/// Modules under the keys of the compile order.
pub open spec fn keyed(s: Seq<(String, &Module)>) -> Seq<(Seq<char>, Seq<Item>)> {
    Seq::new(s.len(), |i: int| (s[i].0@, s[i].1.items@))
}

/// Symbols with the module that defines them.
pub open spec fn owned_by(
    m: Map<Seq<char>, Seq<char>>,
    symbols: Seq<Seq<char>>,
    key: Seq<char>,
) -> Map<Seq<char>, Seq<char>>
    decreases symbols.len(),
{
    if symbols.len() == 0 {
        m
    } else {
        owned_by(m, symbols.drop_last(), key).insert(symbols.last(), key)
    }
}

/// The module that defines each symbol; the last one, where there are several.
pub open spec fn owners(s: Seq<(Seq<char>, Seq<Item>)>) -> Map<Seq<char>, Seq<char>>
    decreases s.len(),
{
    if s.len() == 0 {
        Map::empty()
    } else {
        owned_by(owners(s.drop_last()), defined(s.last().1), s.last().0)
    }
}

/// Edges with one more from a module, unless it is there.
pub open spec fn with_edge(
    m: Map<Seq<char>, Seq<Seq<char>>>,
    key: Seq<char>,
    to: Seq<char>,
) -> Map<Seq<char>, Seq<Seq<char>>> {
    let before = if m.contains_key(key) {
        m[key]
    } else {
        seq![]
    };
    if before.contains(to) {
        m
    } else {
        m.insert(key, before.push(to))
    }
}

/// Edges with those that the symbols a module refers to demand.
pub open spec fn with_references(
    m: Map<Seq<char>, Seq<Seq<char>>>,
    owner: Map<Seq<char>, Seq<char>>,
    key: Seq<char>,
    symbols: Seq<Seq<char>>,
) -> Map<Seq<char>, Seq<Seq<char>>>
    decreases symbols.len(),
{
    if symbols.len() == 0 {
        m
    } else {
        let before = with_references(m, owner, key, symbols.drop_last());
        let s = symbols.last();
        if owner.contains_key(s) && owner[s] != key {
            with_edge(before, key, owner[s])
        } else {
            before
        }
    }
}

/// The edges that modules demand.
pub open spec fn edges(
    owner: Map<Seq<char>, Seq<char>>,
    s: Seq<(Seq<char>, Seq<Item>)>,
) -> Map<Seq<char>, Seq<Seq<char>>>
    decreases s.len(),
{
    if s.len() == 0 {
        Map::empty()
    } else {
        with_references(
            edges(owner, s.drop_last()),
            owner,
            s.last().0,
            referenced(s.last().1),
        )
    }
}

// ── collecting ──────────────────────────────────────────────────────────────

/// Whether text holds `::`.
fn contains_separator(text: &str) -> (r: bool)
    ensures
        r == has_separator(text@),
{
    let chars = chars_of(text);
    let mut i: usize = 1;
    while i < chars.len()
        invariant
            1 <= i,
            chars@ == text@,
            forall|k: int|
                0 <= k < i - 1 && k < chars@.len() - 1 ==> !(#[trigger] chars@[k] == ':'
                    && chars@[k + 1] == ':'),
        decreases chars@.len() - i,
    {
        if chars[i - 1] == ':' && chars[i] == ':' {
            assert(text@[i - 1] == ':' && text@[i - 1 + 1] == ':');
            return true;
        }
        i = i + 1;
    }
    false
}

/// Append a piece of text.
fn push_copy(out: &mut Vec<String>, text: &str)
    ensures
        texts(final(out)@) == texts(old(out)@).push(text@),
{
    let ghost was = texts(out@);
    out.push(owned(text));
    assert(texts(out@) =~= was.push(text@));
}

/// Append the symbol that an expression itself refers to.
fn push_own_symbol(e: &Expr, out: &mut Vec<String>)
    ensures
        texts(final(out)@) == (match own_symbol(*e) {
            Some(s) => texts(old(out)@).push(s),
            None => texts(old(out)@),
        }),
{
    match &e.kind {
        ExprKind::MethodCall { receiver: _, method: _, args: _, resolved_method } => {
            if let Some(ResolvedMethod::Symbol(s)) = resolved_method {
                push_copy(out, s.as_str());
            }
        },
        ExprKind::Binary { op: _, left: _, right: _, resolved_op } => {
            if let Some(ResolvedMethod::Symbol(s)) = resolved_op {
                push_copy(out, s.as_str());
            }
        },
        ExprKind::Name(n) => {
            if n.path.len() == 0 && contains_separator(n.name.as_str()) {
                push_copy(out, n.name.as_str());
            }
        },
        _ => {},
    }
}

/// Append the symbols that an expression refers to.
fn collect_symbols(e: &Expr, out: &mut Vec<String>)
    ensures
        texts(final(out)@) == texts(old(out)@) + symbols_in(*e),
    decreases *e,
{
    let ghost was = texts(out@);
    push_own_symbol(e, out);
    let ghost own = texts(out@);
    let inner = parts_of(e);
    let mut i: usize = 0;
    assert(own =~= own + symbols_of_parts(*e, 0));
    while i < inner.len()
        invariant
            i <= inner@.len(),
            referents(inner@) == parts(*e),
            texts(out@) == own + symbols_of_parts(*e, i as nat),
        decreases inner@.len() - i,
    {
        proof {
            part_is_smaller(*e, i as int);
            assert(referents(inner@)[i as int] == *inner@[i as int]);
        }
        collect_symbols(inner[i], out);
        i = i + 1;
        assert(texts(out@) =~= own + symbols_of_parts(*e, i as nat));
    }
    assert(referents(inner@).len() == inner@.len());
    assert(texts(out@) =~= was + symbols_in(*e));
}

/// The symbols that a module refers to.
fn collect_referenced_symbols(items: &Vec<Item>) -> (r: Vec<String>)
    ensures
        texts(r@) == referenced(items@),
{
    let mut out: Vec<String> = Vec::new();
    let mut i: usize = 0;
    assert(items@.take(0) =~= seq![]);
    assert(texts(out@) =~= seq![]);
    while i < items.len()
        invariant
            i <= items@.len(),
            texts(out@) == referenced(items@.take(i as int)),
        decreases items@.len() - i,
    {
        assert(items@.take(i + 1).drop_last() =~= items@.take(i as int));
        let ghost was = texts(out@);
        let inner = item_bodies(&items[i]);
        let ghost all = bodies(items@[i as int]);
        let mut k: usize = 0;
        assert(all.take(0) =~= seq![]);
        assert(was =~= was + symbols_in_all(all.take(0)));
        while k < inner.len()
            invariant
                k <= inner@.len(),
                referents(inner@) == all,
                texts(out@) == was + symbols_in_all(all.take(k as int)),
            decreases inner@.len() - k,
        {
            assert(all.take(k + 1).drop_last() =~= all.take(k as int));
            assert(all[k as int] == *inner@[k as int]);
            collect_symbols(inner[k], &mut out);
            k = k + 1;
            assert(texts(out@) =~= was + symbols_in_all(all.take(k as int)));
        }
        assert(all.len() == inner@.len());
        assert(all.take(all.len() as int) =~= all);
        i = i + 1;
    }
    assert(items@.take(items@.len() as int) =~= items@);
    out
}

/// The symbols that a module defines.
fn defined_symbols(items: &Vec<Item>) -> (r: Vec<String>)
    ensures
        texts(r@) == defined(items@),
{
    let mut out: Vec<String> = Vec::new();
    let mut i: usize = 0;
    assert(items@.take(0) =~= seq![]);
    assert(texts(out@) =~= seq![]);
    while i < items.len()
        invariant
            i <= items@.len(),
            texts(out@) == defined(items@.take(i as int)),
        decreases items@.len() - i,
    {
        assert(items@.take(i + 1).drop_last() =~= items@.take(i as int));
        if let ItemKind::Impl(d) = &items[i].kind {
            let ghost was = texts(out@);
            let ghost ms = d.methods@;
            let mut k: usize = 0;
            assert(ms.take(0) =~= seq![]);
            assert(was =~= was + method_symbols(ms.take(0)));
            while k < d.methods.len()
                invariant
                    k <= d.methods@.len(),
                    ms == d.methods@,
                    texts(out@) == was + method_symbols(ms.take(k as int)),
                decreases d.methods@.len() - k,
            {
                assert(ms.take(k + 1).drop_last() =~= ms.take(k as int));
                assert(ms.take(k + 1).last() == ms[k as int]);
                if let Some(s) = &d.methods[k].resolved_symbol {
                    push_copy(&mut out, s.as_str());
                }
                k = k + 1;
                assert(texts(out@) =~= was + method_symbols(ms.take(k as int)));
            }
            assert(ms.take(ms.len() as int) =~= ms);
        }
        i = i + 1;
    }
    assert(items@.take(items@.len() as int) =~= items@);
    out
}

/// A map of text.
pub open spec fn text_map_view(m: Map<Seq<char>, String>) -> Map<Seq<char>, Seq<char>> {
    m.map_values(|s: String| s@)
}

/// A map of lists of text.
pub open spec fn list_map_view(m: Map<Seq<char>, Vec<String>>) -> Map<Seq<char>, Seq<Seq<char>>> {
    m.map_values(|s: Vec<String>| texts(s@))
}

/// Note the module that defines symbols.
fn note_owner(owner: &mut OrdMap<String, String>, symbols: &Vec<String>, key: &str)
    ensures
        text_map_view(final(owner)@) == owned_by(
            text_map_view(old(owner)@),
            texts(symbols@),
            key@,
        ),
{
    let ghost was = text_map_view(owner@);
    let ghost all = texts(symbols@);
    let mut i: usize = 0;
    assert(all.take(0) =~= seq![]);
    while i < symbols.len()
        invariant
            i <= symbols@.len(),
            all == texts(symbols@),
            text_map_view(owner@) == owned_by(was, all.take(i as int), key@),
        decreases symbols@.len() - i,
    {
        assert(all.take(i + 1).drop_last() =~= all.take(i as int));
        assert(all.take(i + 1).last() == symbols@[i as int]@);
        let ghost now = text_map_view(owner@);
        owner.insert(owned(symbols[i].as_str()), owned(key));
        assert(text_map_view(owner@) =~= now.insert(symbols@[i as int]@, key@));
        i = i + 1;
    }
    assert(all.take(all.len() as int) =~= all);
}

/// Whether text is in a list.
fn lists(s: &Vec<String>, text: &str) -> (r: bool)
    ensures
        r == texts(s@).contains(text@),
{
    let mut i: usize = 0;
    while i < s.len()
        invariant
            i <= s@.len(),
            forall|k: int| 0 <= k < i ==> #[trigger] texts(s@)[k] != text@,
        decreases s@.len() - i,
    {
        if text_same(s[i].as_str(), text) {
            assert(texts(s@)[i as int] == text@);
            return true;
        }
        i = i + 1;
    }
    false
}

/// Add an edge from a module, unless it is there.
fn add_edge(found: &mut OrdMap<String, Vec<String>>, key: &str, to: &str)
    ensures
        list_map_view(final(found)@) == with_edge(list_map_view(old(found)@), key@, to@),
{
    let ghost was = list_map_view(found@);
    let name = owned(key);
    let mut deps: Vec<String> = match found.remove(&name) {
        Some(v) => v,
        None => Vec::new(),
    };
    let ghost before = texts(deps@);
    proof {
        if !was.contains_key(key@) {
            assert(before =~= seq![]);
        } else {
            assert(was[key@] == before);
        }
    }
    let present = lists(&deps, to);
    if !present {
        push_copy(&mut deps, to);
    }
    let ghost after = texts(deps@);
    if deps.len() > 0 {
        found.insert(name, deps);
        assert(list_map_view(found@) =~= was.insert(key@, after));
        proof {
            if present {
                assert(was.contains_key(key@)) by {
                    if !was.contains_key(key@) {
                        assert(before.len() == 0);
                    }
                }
                assert(was.insert(key@, after) =~= was);
            }
        }
    } else {
        assert(after.len() == 0);
        assert(false) by {
            if present {
                assert(before.len() > 0);
            }
        }
    }
}

/// Add the edges that the symbols a module refers to demand.
fn add_references(
    found: &mut OrdMap<String, Vec<String>>,
    owner: &OrdMap<String, String>,
    key: &str,
    symbols: &Vec<String>,
)
    ensures
        list_map_view(final(found)@) == with_references(
            list_map_view(old(found)@),
            text_map_view(owner@),
            key@,
            texts(symbols@),
        ),
{
    let ghost was = list_map_view(found@);
    let ghost all = texts(symbols@);
    let ghost own = text_map_view(owner@);
    let mut i: usize = 0;
    assert(all.take(0) =~= seq![]);
    while i < symbols.len()
        invariant
            i <= symbols@.len(),
            all == texts(symbols@),
            own == text_map_view(owner@),
            list_map_view(found@) == with_references(was, own, key@, all.take(i as int)),
        decreases symbols@.len() - i,
    {
        assert(all.take(i + 1).drop_last() =~= all.take(i as int));
        assert(all.take(i + 1).last() == symbols@[i as int]@);
        if let Some(definer) = owner.get_text(symbols[i].as_str()) {
            assert(own[symbols@[i as int]@] == definer@);
            if !text_same(definer.as_str(), key) {
                add_edge(found, key, definer.as_str());
            }
        }
        i = i + 1;
    }
    assert(all.take(all.len() as int) =~= all);
}

/// The edges that type-directed dispatch demands among modules that are compiled
/// together: from each module to those that define a dispatch symbol that it
/// refers to, each once, in the order in which they are first referred to.
/// Symbols that none of the modules defines need no edge.
pub fn dispatch_edges(checked: &Vec<(String, &Module)>) -> (r: OrdMap<String, Vec<String>>)
    ensures
        list_map_view(r@) == edges(owners(keyed(checked@)), keyed(checked@)),
{
    let ghost all = keyed(checked@);
    let mut owner: OrdMap<String, String> = OrdMap::new();
    let mut i: usize = 0;
    assert(all.take(0) =~= seq![]);
    assert(text_map_view(owner@) =~= owners(all.take(0)));
    while i < checked.len()
        invariant
            i <= checked@.len(),
            all == keyed(checked@),
            text_map_view(owner@) == owners(all.take(i as int)),
        decreases checked@.len() - i,
    {
        assert(all.take(i + 1).drop_last() =~= all.take(i as int));
        assert(all.take(i + 1).last() == all[i as int]);
        let symbols = defined_symbols(&checked[i].1.items);
        note_owner(&mut owner, &symbols, checked[i].0.as_str());
        i = i + 1;
    }
    assert(all.take(all.len() as int) =~= all);
    let mut found: OrdMap<String, Vec<String>> = OrdMap::new();
    let ghost own = text_map_view(owner@);
    let mut k: usize = 0;
    assert(list_map_view(found@) =~= edges(own, all.take(0)));
    while k < checked.len()
        invariant
            k <= checked@.len(),
            all == keyed(checked@),
            own == text_map_view(owner@),
            list_map_view(found@) == edges(own, all.take(k as int)),
        decreases checked@.len() - k,
    {
        assert(all.take(k + 1).drop_last() =~= all.take(k as int));
        assert(all.take(k + 1).last() == all[k as int]);
        let symbols = collect_referenced_symbols(&checked[k].1.items);
        add_references(&mut found, &owner, checked[k].0.as_str(), &symbols);
        k = k + 1;
    }
    found
}

// ── laws ────────────────────────────────────────────────────────────────────

/// Whether a module refers to a symbol that another one defines.
pub open spec fn demands(
    owner: Map<Seq<char>, Seq<char>>,
    s: Seq<(Seq<char>, Seq<Item>)>,
    from: Seq<char>,
    to: Seq<char>,
) -> bool {
    from != to && exists|i: int, symbol: Seq<char>|
        0 <= i < s.len() && (#[trigger] s[i]).0 == from && #[trigger] referenced(s[i].1).contains(
            symbol,
        ) && owner.contains_key(symbol) && owner[symbol] == to
}

/// Whether there is an edge from a module to another.
pub open spec fn has_edge(m: Map<Seq<char>, Seq<Seq<char>>>, from: Seq<char>, to: Seq<char>) -> bool {
    m.contains_key(from) && m[from].contains(to)
}

proof fn lemma_with_edge(
    m: Map<Seq<char>, Seq<Seq<char>>>,
    key: Seq<char>,
    to: Seq<char>,
    x: Seq<char>,
    y: Seq<char>,
)
    requires
        m.contains_key(x) ==> m[x].no_duplicates() && m[x].len() > 0,
    ensures
        has_edge(with_edge(m, key, to), x, y) <==> has_edge(m, x, y) || (x == key && y == to),
        with_edge(m, key, to).contains_key(x) ==> with_edge(m, key, to)[x].no_duplicates()
            && with_edge(m, key, to)[x].len() > 0,
{
    let before = if m.contains_key(key) {
        m[key]
    } else {
        seq![]
    };
    if x == key && !before.contains(to) {
        let after = before.push(to);
        assert(after[after.len() - 1] == to);
        if before.contains(y) {
            let i = before.index_of(y);
            assert(after[i] == y);
        }
        if after.contains(y) && y != to {
            let i = after.index_of(y);
            assert(before[i] == y);
        }
        assert(before.no_duplicates());
        assert(after.no_duplicates());
    }
}

proof fn lemma_with_references(
    m: Map<Seq<char>, Seq<Seq<char>>>,
    owner: Map<Seq<char>, Seq<char>>,
    key: Seq<char>,
    symbols: Seq<Seq<char>>,
    x: Seq<char>,
    y: Seq<char>,
)
    requires
        m.contains_key(x) ==> m[x].no_duplicates() && m[x].len() > 0,
    ensures
        has_edge(with_references(m, owner, key, symbols), x, y) <==> has_edge(m, x, y) || (x == key
            && y != key && exists|s: Seq<char>| #[trigger]
            symbols.contains(s) && owner.contains_key(s) && owner[s] == y),
        with_references(m, owner, key, symbols).contains_key(x) ==> with_references(
            m,
            owner,
            key,
            symbols,
        )[x].no_duplicates() && with_references(m, owner, key, symbols)[x].len() > 0,
    decreases symbols.len(),
{
    if symbols.len() > 0 {
        let rest = symbols.drop_last();
        let s = symbols.last();
        lemma_with_references(m, owner, key, rest, x, y);
        let before = with_references(m, owner, key, rest);
        if owner.contains_key(s) && owner[s] != key {
            lemma_with_edge(before, key, owner[s], x, y);
        }
        assert forall|t: Seq<char>| #[trigger] symbols.contains(t) <==> rest.contains(t) || t
            == s by {
            assert(symbols[symbols.len() - 1] == s);
            if symbols.contains(t) && t != s {
                let i = symbols.index_of(t);
                assert(rest[i] == t);
            }
            if rest.contains(t) {
                let i = rest.index_of(t);
                assert(symbols[i] == t);
            }
        }
        if exists|t: Seq<char>| #[trigger]
            symbols.contains(t) && owner.contains_key(t) && owner[t] == y {
            let t = choose|t: Seq<char>| #[trigger]
                symbols.contains(t) && owner.contains_key(t) && owner[t] == y;
            assert(rest.contains(t) || t == s);
        }
        if exists|t: Seq<char>| #[trigger]
            rest.contains(t) && owner.contains_key(t) && owner[t] == y {
            let t = choose|t: Seq<char>| #[trigger]
                rest.contains(t) && owner.contains_key(t) && owner[t] == y;
            assert(symbols.contains(t));
        }
        assert(symbols.contains(s));
    } else {
        assert forall|s: Seq<char>| !#[trigger] symbols.contains(s) by {}
    }
}

/// A module has an edge to another exactly where it refers to a dispatch symbol
/// that the other defines; none has an edge to itself, none has the same edge
/// twice, and only modules with edges are listed.
pub proof fn edges_are_what_references_demand(
    owner: Map<Seq<char>, Seq<char>>,
    s: Seq<(Seq<char>, Seq<Item>)>,
    from: Seq<char>,
    to: Seq<char>,
)
    ensures
        has_edge(edges(owner, s), from, to) <==> demands(owner, s, from, to),
        edges(owner, s).contains_key(from) ==> edges(owner, s)[from].no_duplicates() && edges(
            owner,
            s,
        )[from].len() > 0,
    decreases s.len(),
{
    if s.len() > 0 {
        let rest = s.drop_last();
        edges_are_what_references_demand(owner, rest, from, to);
        let symbols = referenced(s.last().1);
        lemma_with_references(edges(owner, rest), owner, s.last().0, symbols, from, to);
        let n = s.len() - 1;
        if demands(owner, s, from, to) {
            let (i, symbol) = choose|i: int, symbol: Seq<char>|
                0 <= i < s.len() && (#[trigger] s[i]).0 == from && #[trigger] referenced(
                    s[i].1,
                ).contains(symbol) && owner.contains_key(symbol) && owner[symbol] == to;
            if i < n {
                assert(rest[i] == s[i]);
                assert(referenced(rest[i].1).contains(symbol));
            }
        }
        if demands(owner, rest, from, to) {
            let (i, symbol) = choose|i: int, symbol: Seq<char>|
                0 <= i < rest.len() && (#[trigger] rest[i]).0 == from && #[trigger] referenced(
                    rest[i].1,
                ).contains(symbol) && owner.contains_key(symbol) && owner[symbol] == to;
            assert(s[i] == rest[i]);
            assert(referenced(s[i].1).contains(symbol));
        }
        if from == s.last().0 && exists|t: Seq<char>| #[trigger]
            symbols.contains(t) && owner.contains_key(t) && owner[t] == to {
            let t = choose|t: Seq<char>| #[trigger]
                symbols.contains(t) && owner.contains_key(t) && owner[t] == to;
            assert(s[n].0 == from);
            assert(referenced(s[n].1).contains(t));
        }
    }
}

} // verus!
