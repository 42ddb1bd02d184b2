//! What stands in an expression, at any depth, and what follows for the order in
//! which modules are compiled.

use vstd::prelude::*;

use crate::ast::{
    AbilityMethod, Expr, ExprKind, ImplMethod, Item, ItemKind, MatchArm, ResolvedMethod, Stmt,
    StmtKind,
};
use crate::compiler::codegen::{binary_code, expr_code, kind_code, method_call_code};
use crate::compiler::context::TablesView;
use crate::compiler::dicts::Gen;
use crate::dispatch_deps::{
    defined, edges, edges_are_what_references_demand, demands, has_edge, method_symbols,
    own_symbol, owned_by, owners, referenced, symbols_in, symbols_in_all, symbols_of_parts,
};
use crate::expr_walk::{
    arm_parts, bodies, default_bodies, field_values, handler_bodies, method_bodies, optional,
    part_is_smaller, parts, statement_parts,
};
use crate::fqn::KeyView;

verus! {

// ── sub-expressions ─────────────────────────────────────────────────────────

/// Whether a statement holds an expression.
pub open spec fn in_statement(s: Stmt, x: Expr) -> bool {
    match s.kind {
        StmtKind::Let(b) => b.init == x,
        StmtKind::Expr(e) => e == x,
        StmtKind::Const(d) => d.value == x,
        StmtKind::Use(_) => false,
    }
}

/// Whether an arm of a match holds an expression: it is its body or its guard.
pub open spec fn in_arm(a: MatchArm, x: Expr) -> bool {
    a.body == x || a.guard == Some(x)
}

/// Whether an expression that may be there is a given one.
pub open spec fn is_there(e: Option<Box<Expr>>, x: Expr) -> bool {
    e matches Some(n) && *n == x
}

/// Whether an expression is a direct sub-expression of another: what stands in one
/// of its fields, those among them that may be left out.
pub open spec fn stands_in(e: Expr, x: Expr) -> bool {
    match e.kind {
        ExprKind::Unit => false,
        ExprKind::Bool(_) => false,
        ExprKind::Number(_) => false,
        ExprKind::String(_) => false,
        ExprKind::Local(_) => false,
        ExprKind::Name(_) => false,
        ExprKind::Tuple(es) => exists|i: int| 0 <= i < es@.len() && #[trigger] es@[i] == x,
        ExprKind::List(es) => exists|i: int| 0 <= i < es@.len() && #[trigger] es@[i] == x,
        ExprKind::TupleIndex(t, _) => *t == x,
        ExprKind::RecordField(r, _) => *r == x,
        ExprKind::Unary(_, o) => *o == x,
        ExprKind::Resume(v) => *v == x,
        ExprKind::Record(fields) => exists|i: int|
            0 <= i < fields@.len() && (#[trigger] fields@[i]).1 == x,
        ExprKind::TypedRecord { name: _, fields } => exists|i: int|
            0 <= i < fields@.len() && (#[trigger] fields@[i]).1 == x,
        ExprKind::Binary { op: _, left, right, resolved_op: _ } => *left == x || *right == x,
        ExprKind::If(c, yes, no) => *c == x || *yes == x || is_there(no, x),
        ExprKind::Match(v, arms) => *v == x || exists|i: int|
            0 <= i < arms@.len() && in_arm(#[trigger] arms@[i], x),
        ExprKind::Block(stmts, result) => is_there(result, x) || exists|i: int|
            0 <= i < stmts@.len() && in_statement(#[trigger] stmts@[i], x),
        ExprKind::Lambda(l) => *l.body == x,
        ExprKind::Call(f, args) => *f == x || exists|i: int|
            0 <= i < args@.len() && #[trigger] args@[i] == x,
        ExprKind::Perform(c) => exists|i: int| 0 <= i < c.args@.len() && #[trigger] c.args@[i] == x,
        ExprKind::Handle(h) => *h.body == x || is_there(h.else_clause, x) || exists|i: int|
            0 <= i < h.handlers@.len() && #[trigger] h.handlers@[i] == x,
        ExprKind::HandlerLiteral(h) => exists|i: int|
            0 <= i < h.methods@.len() && (#[trigger] h.methods@[i]).body == x,
        ExprKind::Sandbox(s) => *s.body == x,
        ExprKind::MethodCall { receiver, method: _, args, resolved_method: _ } => *receiver == x
            || exists|i: int| 0 <= i < args@.len() && #[trigger] args@[i] == x,
    }
}

proof fn lemma_joined(a: Seq<Expr>, b: Seq<Expr>, x: Expr)
    ensures
        (a + b).contains(x) <==> a.contains(x) || b.contains(x),
{
    if a.contains(x) {
        assert((a + b)[a.index_of(x)] == x);
    }
    if b.contains(x) {
        assert((a + b)[a.len() + b.index_of(x)] == x);
    }
    if (a + b).contains(x) {
        let i = (a + b).index_of(x);
        if i < a.len() {
            assert(a[i] == x);
        } else {
            assert(b[i - a.len()] == x);
        }
    }
}

proof fn lemma_arms(s: Seq<MatchArm>, x: Expr)
    ensures
        arm_parts(s).contains(x) <==> exists|i: int| 0 <= i < s.len() && in_arm(#[trigger] s[i], x),
    decreases s.len(),
{
    if s.len() > 0 {
        let rest = s.drop_last();
        let last = s[s.len() - 1];
        lemma_arms(rest, x);
        let own = match last.guard {
            Some(g) => seq![g, last.body],
            None => seq![last.body],
        };
        assert(arm_parts(s) =~= arm_parts(rest) + own);
        lemma_joined(arm_parts(rest), own, x);
        assert(own.contains(x) <==> in_arm(last, x)) by {
            assert(own[own.len() - 1] == last.body);
            if let Some(g) = last.guard {
                assert(own[0] == g);
            }
        }
        if exists|i: int| 0 <= i < rest.len() && in_arm(#[trigger] rest[i], x) {
            let i = choose|i: int| 0 <= i < rest.len() && in_arm(#[trigger] rest[i], x);
            assert(in_arm(s[i], x));
        }
        if exists|i: int| 0 <= i < s.len() && in_arm(#[trigger] s[i], x) {
            let i = choose|i: int| 0 <= i < s.len() && in_arm(#[trigger] s[i], x);
            if i < rest.len() {
                assert(in_arm(rest[i], x));
            }
        }
    }
}

proof fn lemma_statements(s: Seq<Stmt>, x: Expr)
    ensures
        statement_parts(s).contains(x) <==> exists|i: int|
            0 <= i < s.len() && in_statement(#[trigger] s[i], x),
    decreases s.len(),
{
    if s.len() > 0 {
        let rest = s.drop_last();
        let last = s[s.len() - 1];
        lemma_statements(rest, x);
        let own = match last.kind {
            StmtKind::Let(b) => seq![b.init],
            StmtKind::Expr(e) => seq![e],
            StmtKind::Const(d) => seq![d.value],
            StmtKind::Use(_) => seq![],
        };
        assert(statement_parts(s) =~= statement_parts(rest) + own);
        lemma_joined(statement_parts(rest), own, x);
        assert(own.contains(x) <==> in_statement(last, x)) by {
            if own.len() > 0 {
                assert(own.contains(own[0]));
            }
        }
        if exists|i: int| 0 <= i < rest.len() && in_statement(#[trigger] rest[i], x) {
            let i = choose|i: int| 0 <= i < rest.len() && in_statement(#[trigger] rest[i], x);
            assert(in_statement(s[i], x));
        }
        if exists|i: int| 0 <= i < s.len() && in_statement(#[trigger] s[i], x) {
            let i = choose|i: int| 0 <= i < s.len() && in_statement(#[trigger] s[i], x);
            if i < rest.len() {
                assert(in_statement(rest[i], x));
            }
        }
    }
}

proof fn lemma_fields(s: Seq<(String, Expr)>, x: Expr)
    ensures
        field_values(s).contains(x) <==> exists|i: int|
            0 <= i < s.len() && (#[trigger] s[i]).1 == x,
{
    if field_values(s).contains(x) {
        let i = field_values(s).index_of(x);
        assert(s[i].1 == x);
    }
    if exists|i: int| 0 <= i < s.len() && (#[trigger] s[i]).1 == x {
        let i = choose|i: int| 0 <= i < s.len() && (#[trigger] s[i]).1 == x;
        assert(field_values(s)[i] == x);
    }
}

proof fn lemma_one(y: Expr, x: Expr)
    ensures
        seq![y].contains(x) <==> y == x,
{
    assert(seq![y][0] == y);
}

proof fn lemma_there(e: Option<Box<Expr>>, x: Expr)
    ensures
        optional(e).contains(x) <==> is_there(e, x),
{
    if let Some(n) = e {
        lemma_one(*n, x);
    }
}

/// What an expression is made of is what stands in its fields: nothing is passed
/// over, and nothing else is there.
pub proof fn parts_are_the_sub_expressions(e: Expr, x: Expr)
    ensures
        parts(e).contains(x) <==> stands_in(e, x),
{
    match e.kind {
        ExprKind::TupleIndex(t, _) => lemma_one(*t, x),
        ExprKind::RecordField(r, _) => lemma_one(*r, x),
        ExprKind::Unary(_, o) => lemma_one(*o, x),
        ExprKind::Resume(v) => lemma_one(*v, x),
        ExprKind::Lambda(l) => lemma_one(*l.body, x),
        ExprKind::Sandbox(s) => lemma_one(*s.body, x),
        ExprKind::Record(fields) => lemma_fields(fields@, x),
        ExprKind::TypedRecord { name: _, fields } => lemma_fields(fields@, x),
        ExprKind::Binary { op: _, left, right, resolved_op: _ } => {
            assert(seq![*left, *right] =~= seq![*left] + seq![*right]);
            lemma_joined(seq![*left], seq![*right], x);
            lemma_one(*left, x);
            lemma_one(*right, x);
        },
        ExprKind::If(c, yes, no) => {
            assert(seq![*c, *yes] =~= seq![*c] + seq![*yes]);
            lemma_joined(seq![*c], seq![*yes], x);
            lemma_joined(seq![*c, *yes], optional(no), x);
            lemma_one(*c, x);
            lemma_one(*yes, x);
            lemma_there(no, x);
        },
        ExprKind::Match(v, arms) => {
            lemma_joined(seq![*v], arm_parts(arms@), x);
            lemma_one(*v, x);
            lemma_arms(arms@, x);
        },
        ExprKind::Block(stmts, result) => {
            lemma_joined(statement_parts(stmts@), optional(result), x);
            lemma_statements(stmts@, x);
            lemma_there(result, x);
        },
        ExprKind::Call(f, args) => {
            lemma_joined(seq![*f], args@, x);
            lemma_one(*f, x);
        },
        ExprKind::Handle(h) => {
            lemma_joined(h.handlers@, seq![*h.body], x);
            lemma_joined(h.handlers@ + seq![*h.body], optional(h.else_clause), x);
            lemma_one(*h.body, x);
            lemma_there(h.else_clause, x);
        },
        ExprKind::HandlerLiteral(h) => {
            let s = handler_bodies(h.methods@);
            if s.contains(x) {
                let i = s.index_of(x);
                assert(h.methods@[i].body == x);
            }
            if exists|i: int| 0 <= i < h.methods@.len() && (#[trigger] h.methods@[i]).body == x {
                let i = choose|i: int|
                    0 <= i < h.methods@.len() && (#[trigger] h.methods@[i]).body == x;
                assert(s[i] == x);
            }
        },
        ExprKind::MethodCall { receiver, method: _, args, resolved_method: _ } => {
            lemma_joined(seq![*receiver], args@, x);
            lemma_one(*receiver, x);
        },
        _ => {},
    }
}

// ── at any depth ────────────────────────────────────────────────────────────

/// Whether every expression of a path stands in the one before it.
pub open spec fn descends(path: Seq<Expr>) -> bool {
    forall|i: int| #![trigger path[i]] 0 < i < path.len() ==> stands_in(path[i - 1], path[i])
}

/// Whether an expression is another or stands in it, at any depth.
pub open spec fn within(e: Expr, x: Expr) -> bool {
    exists|path: Seq<Expr>|
        path.len() > 0 && path[0] == e && path.last() == x && #[trigger] descends(path)
}

proof fn lemma_part_symbols(e: Expr, n: nat, k: int, s: Seq<char>)
    requires
        0 <= k < n <= parts(e).len(),
        symbols_in(parts(e)[k]).contains(s),
    ensures
        symbols_of_parts(e, n).contains(s),
    decreases n,
{
    let before = symbols_of_parts(e, (n - 1) as nat);
    let own = symbols_in(parts(e)[n - 1]);
    if k < n - 1 {
        lemma_part_symbols(e, (n - 1) as nat, k, s);
        assert((before + own)[before.index_of(s)] == s);
    } else {
        assert((before + own)[before.len() + own.index_of(s)] == s);
    }
}

proof fn lemma_whose_symbol(e: Expr, n: nat, s: Seq<char>) -> (k: int)
    requires
        n <= parts(e).len(),
        symbols_of_parts(e, n).contains(s),
    ensures
        0 <= k < n,
        symbols_in(parts(e)[k]).contains(s),
    decreases n,
{
    let before = symbols_of_parts(e, (n - 1) as nat);
    let own = symbols_in(parts(e)[n - 1]);
    let i = (before + own).index_of(s);
    if i < before.len() {
        assert(before[i] == s);
        lemma_whose_symbol(e, (n - 1) as nat, s)
    } else {
        assert(own[i - before.len()] == s);
        n - 1
    }
}

proof fn lemma_symbol_up(path: Seq<Expr>, i: int, s: Seq<char>)
    requires
        descends(path),
        0 <= i < path.len(),
        symbols_in(path[i]).contains(s),
    ensures
        symbols_in(path[0]).contains(s),
    decreases i,
{
    if i > 0 {
        let e = path[i - 1];
        let x = path[i];
        assert(stands_in(e, x));
        parts_are_the_sub_expressions(e, x);
        let k = parts(e).index_of(x);
        let n = parts(e).len();
        lemma_part_symbols(e, n, k, s);
        let rest = symbols_of_parts(e, n);
        let own = match own_symbol(e) {
            Some(s) => seq![s],
            None => seq![],
        };
        assert((own + rest)[own.len() + rest.index_of(s)] == s);
        lemma_symbol_up(path, i - 1, s);
    }
}

proof fn lemma_symbol_down(e: Expr, s: Seq<char>) -> (x: Expr)
    requires
        symbols_in(e).contains(s),
    ensures
        within(e, x),
        own_symbol(x) == Some(s),
    decreases e,
{
    if own_symbol(e) == Some(s) {
        let path = seq![e];
        assert(descends(path));
        assert(path.last() == e);
        e
    } else {
        let n = parts(e).len();
        let rest = symbols_of_parts(e, n);
        let own = match own_symbol(e) {
            Some(s) => seq![s],
            None => seq![],
        };
        let i = (own + rest).index_of(s);
        assert(rest[i - own.len()] == s);
        let k = lemma_whose_symbol(e, n, s);
        let y = parts(e)[k];
        part_is_smaller(e, k);
        let x = lemma_symbol_down(y, s);
        let path = choose|path: Seq<Expr>|
            path.len() > 0 && path[0] == y && path.last() == x && #[trigger] descends(path);
        let longer = seq![e] + path;
        parts_are_the_sub_expressions(e, y);
        assert(descends(longer)) by {
            assert forall|i: int| #![trigger longer[i]] 0 < i < longer.len() implies stands_in(
                longer[i - 1],
                longer[i],
            ) by {
                assert(longer[i] == path[i - 1]);
                if i > 1 {
                    assert(longer[i - 1] == path[i - 2]);
                }
            }
        }
        assert(longer.last() == x);
        x
    }
}

/// An expression refers to a dispatch symbol exactly where some expression in it, at
/// whatever depth, itself refers to it.
pub proof fn symbols_come_from_every_depth(e: Expr, s: Seq<char>)
    ensures
        symbols_in(e).contains(s) <==> exists|x: Expr| #[trigger]
            within(e, x) && own_symbol(x) == Some(s),
{
    if symbols_in(e).contains(s) {
        let x = lemma_symbol_down(e, s);
    }
    if exists|x: Expr| #[trigger] within(e, x) && own_symbol(x) == Some(s) {
        let x = choose|x: Expr| #[trigger] within(e, x) && own_symbol(x) == Some(s);
        let path = choose|path: Seq<Expr>|
            path.len() > 0 && path[0] == e && path.last() == x && #[trigger] descends(path);
        let own = seq![s];
        let rest = symbols_of_parts(x, parts(x).len());
        assert((own + rest)[0] == s);
        lemma_symbol_up(path, path.len() - 1, s);
    }
}

/// What is looked up to make the code of a method call or of an operator is the
/// symbol that it refers to: where the code can be made, the symbol is linked.
pub proof fn own_symbols_are_what_is_linked(t: TablesView, e: Expr, g: Gen, tail: bool, s: String)
    requires
        expr_code(t, e, g, tail) is Ok,
        match e.kind {
            ExprKind::MethodCall { receiver: _, method: _, args: _, resolved_method } =>
                resolved_method == Some(ResolvedMethod::Symbol(s)),
            ExprKind::Binary { op, left: _, right: _, resolved_op } => resolved_op == Some(
                ResolvedMethod::Symbol(s),
            ),
            _ => false,
        },
    ensures
        own_symbol(e) == Some(s@),
        !(e.kind matches ExprKind::Binary { op, .. } && (op is And || op is Or))
            ==> t.function_hashes.contains_key(KeyView::Bare(s@)),
{
    assert(kind_code(t, e, g, tail) is Ok);
    if e.kind is MethodCall {
        assert(method_call_code(t, e, g, tail) is Ok);
    } else {
        assert(binary_code(t, e, g, tail) is Ok);
    }
}

// ── modules ─────────────────────────────────────────────────────────────────

/// Whether an expression is a body of an item: that of a function, of a method of
/// an impl, or of a default implementation of an ability.
pub open spec fn is_body(item: Item, b: Expr) -> bool {
    match item.kind {
        ItemKind::Function(d) => d.body == b,
        ItemKind::Impl(d) => exists|i: int|
            0 <= i < d.methods@.len() && (#[trigger] d.methods@[i]).body == b,
        ItemKind::Ability(d) => exists|i: int|
            0 <= i < d.methods@.len() && (#[trigger] d.methods@[i]).body == Some(b),
        _ => false,
    }
}

/// Whether items refer to a dispatch symbol: an expression does that stands in one
/// of their bodies, at whatever depth.
pub open spec fn refers(items: Seq<Item>, s: Seq<char>) -> bool {
    exists|i: int, b: Expr, x: Expr|
        0 <= i < items.len() && #[trigger] is_body(items[i], b) && #[trigger] within(b, x)
            && own_symbol(x) == Some(s)
}

/// Whether an item defines a dispatch symbol: it is that of a method of an impl.
pub open spec fn defines_one(item: Item, s: Seq<char>) -> bool {
    item.kind matches ItemKind::Impl(d) && exists|k: int|
        0 <= k < d.methods@.len() && ((#[trigger] d.methods@[k]).resolved_symbol matches Some(n)
            && n@ == s)
}

/// Whether items define a dispatch symbol.
pub open spec fn defines(items: Seq<Item>, s: Seq<char>) -> bool {
    exists|i: int| 0 <= i < items.len() && defines_one(#[trigger] items[i], s)
}

proof fn lemma_defaults(ms: Seq<AbilityMethod>, b: Expr)
    ensures
        default_bodies(ms).contains(b) <==> exists|i: int|
            0 <= i < ms.len() && (#[trigger] ms[i]).body == Some(b),
    decreases ms.len(),
{
    if ms.len() > 0 {
        let rest = ms.drop_last();
        let last = ms[ms.len() - 1];
        lemma_defaults(rest, b);
        let own = match last.body {
            Some(x) => seq![x],
            None => seq![],
        };
        assert(default_bodies(ms) =~= default_bodies(rest) + own);
        lemma_joined(default_bodies(rest), own, b);
        assert(own.contains(b) <==> last.body == Some(b)) by {
            if own.len() > 0 {
                assert(own.contains(own[0]));
            }
        }
        if exists|i: int| 0 <= i < rest.len() && (#[trigger] rest[i]).body == Some(b) {
            let i = choose|i: int| 0 <= i < rest.len() && (#[trigger] rest[i]).body == Some(b);
            assert(ms[i].body == Some(b));
        }
        if exists|i: int| 0 <= i < ms.len() && (#[trigger] ms[i]).body == Some(b) {
            let i = choose|i: int| 0 <= i < ms.len() && (#[trigger] ms[i]).body == Some(b);
            if i < rest.len() {
                assert(rest[i].body == Some(b));
            }
        }
    }
}

proof fn lemma_bodies(item: Item, b: Expr)
    ensures
        bodies(item).contains(b) <==> is_body(item, b),
{
    match item.kind {
        ItemKind::Function(d) => lemma_one(d.body, b),
        ItemKind::Impl(d) => {
            let s = method_bodies(d.methods@);
            if s.contains(b) {
                assert(d.methods@[s.index_of(b)].body == b);
            }
            if is_body(item, b) {
                let i = choose|i: int|
                    0 <= i < d.methods@.len() && (#[trigger] d.methods@[i]).body == b;
                assert(s[i] == b);
            }
        },
        ItemKind::Ability(d) => lemma_defaults(d.methods@, b),
        _ => {},
    }
}

proof fn lemma_text_joined(a: Seq<Seq<char>>, b: Seq<Seq<char>>, s: Seq<char>)
    ensures
        (a + b).contains(s) <==> a.contains(s) || b.contains(s),
{
    if a.contains(s) {
        assert((a + b)[a.index_of(s)] == s);
    }
    if b.contains(s) {
        assert((a + b)[a.len() + b.index_of(s)] == s);
    }
    if (a + b).contains(s) {
        let i = (a + b).index_of(s);
        if i < a.len() {
            assert(a[i] == s);
        } else {
            assert(b[i - a.len()] == s);
        }
    }
}

proof fn lemma_symbols_in_all(bs: Seq<Expr>, s: Seq<char>)
    ensures
        symbols_in_all(bs).contains(s) <==> exists|b: Expr| #[trigger]
            bs.contains(b) && symbols_in(b).contains(s),
    decreases bs.len(),
{
    if bs.len() > 0 {
        let rest = bs.drop_last();
        lemma_symbols_in_all(rest, s);
        lemma_text_joined(symbols_in_all(rest), symbols_in(bs.last()), s);
        assert forall|b: Expr| #[trigger] bs.contains(b) <==> rest.contains(b) || b
            == bs.last() by {
            assert(bs =~= rest + seq![bs.last()]);
            lemma_joined(rest, seq![bs.last()], b);
            lemma_one(bs.last(), b);
        }
        if exists|b: Expr| #[trigger] rest.contains(b) && symbols_in(b).contains(s) {
            let b = choose|b: Expr| #[trigger] rest.contains(b) && symbols_in(b).contains(s);
            assert(bs.contains(b));
        }
        assert(bs.contains(bs.last()));
    } else {
        assert forall|b: Expr| !#[trigger] bs.contains(b) by {}
    }
}

/// A module refers to the dispatch symbols that expressions in its bodies, at
/// whatever depth, refer to, and to no others.
pub proof fn modules_refer_at_every_depth(items: Seq<Item>, s: Seq<char>)
    ensures
        referenced(items).contains(s) <==> refers(items, s),
    decreases items.len(),
{
    if items.len() > 0 {
        let rest = items.drop_last();
        let last = items[items.len() - 1];
        modules_refer_at_every_depth(rest, s);
        lemma_text_joined(referenced(rest), symbols_in_all(bodies(last)), s);
        lemma_symbols_in_all(bodies(last), s);
        if symbols_in_all(bodies(last)).contains(s) {
            let b = choose|b: Expr| #[trigger]
                bodies(last).contains(b) && symbols_in(b).contains(s);
            lemma_bodies(last, b);
            symbols_come_from_every_depth(b, s);
            let x = choose|x: Expr| #[trigger] within(b, x) && own_symbol(x) == Some(s);
            assert(is_body(items[items.len() - 1], b));
        }
        if refers(rest, s) {
            let (i, b, x) = choose|i: int, b: Expr, x: Expr|
                0 <= i < rest.len() && #[trigger] is_body(rest[i], b) && #[trigger] within(b, x)
                    && own_symbol(x) == Some(s);
            assert(is_body(items[i], b));
        }
        if refers(items, s) {
            let (i, b, x) = choose|i: int, b: Expr, x: Expr|
                0 <= i < items.len() && #[trigger] is_body(items[i], b) && #[trigger] within(b, x)
                    && own_symbol(x) == Some(s);
            if i < rest.len() {
                assert(is_body(rest[i], b));
            } else {
                lemma_bodies(last, b);
                symbols_come_from_every_depth(b, s);
            }
        }
    }
}

proof fn lemma_method_symbols(ms: Seq<ImplMethod>, s: Seq<char>)
    ensures
        method_symbols(ms).contains(s) <==> exists|k: int|
            0 <= k < ms.len() && ((#[trigger] ms[k]).resolved_symbol matches Some(n) && n@ == s),
    decreases ms.len(),
{
    if ms.len() > 0 {
        let rest = ms.drop_last();
        let last = ms[ms.len() - 1];
        lemma_method_symbols(rest, s);
        let own = match last.resolved_symbol {
            Some(n) => seq![n@],
            None => seq![],
        };
        assert(method_symbols(ms) =~= method_symbols(rest) + own);
        lemma_text_joined(method_symbols(rest), own, s);
        assert(own.contains(s) <==> (last.resolved_symbol matches Some(n) && n@ == s)) by {
            if own.len() > 0 {
                assert(own.contains(own[0]));
            }
        }
        if exists|k: int|
            0 <= k < rest.len() && ((#[trigger] rest[k]).resolved_symbol matches Some(n) && n@
                == s) {
            let k = choose|k: int|
                0 <= k < rest.len() && ((#[trigger] rest[k]).resolved_symbol matches Some(n)
                    && n@ == s);
            assert(ms[k] == rest[k]);
        }
        if exists|k: int|
            0 <= k < ms.len() && ((#[trigger] ms[k]).resolved_symbol matches Some(n) && n@ == s) {
            let k = choose|k: int|
                0 <= k < ms.len() && ((#[trigger] ms[k]).resolved_symbol matches Some(n) && n@
                    == s);
            if k < rest.len() {
                assert(rest[k] == ms[k]);
            }
        }
    }
}

/// A module defines the dispatch symbols of the methods of its impls, and no others.
pub proof fn modules_define_their_methods(items: Seq<Item>, s: Seq<char>)
    ensures
        defined(items).contains(s) <==> defines(items, s),
    decreases items.len(),
{
    if items.len() > 0 {
        let rest = items.drop_last();
        let last = items[items.len() - 1];
        modules_define_their_methods(rest, s);
        if let ItemKind::Impl(d) = last.kind {
            lemma_text_joined(defined(rest), method_symbols(d.methods@), s);
            lemma_method_symbols(d.methods@, s);
            assert(method_symbols(d.methods@).contains(s) <==> defines_one(last, s));
        }
        if defines(rest, s) {
            let i = choose|i: int| 0 <= i < rest.len() && defines_one(#[trigger] rest[i], s);
            assert(defines_one(items[i], s));
        }
        if defines(items, s) {
            let i = choose|i: int| 0 <= i < items.len() && defines_one(#[trigger] items[i], s);
            if i < rest.len() {
                assert(defines_one(rest[i], s));
            }
        }
    }
}

proof fn lemma_owned_by(
    m: Map<Seq<char>, Seq<char>>,
    symbols: Seq<Seq<char>>,
    key: Seq<char>,
    s: Seq<char>,
)
    ensures
        symbols.contains(s) ==> owned_by(m, symbols, key).contains_key(s) && owned_by(
            m,
            symbols,
            key,
        )[s] == key,
        !symbols.contains(s) ==> (owned_by(m, symbols, key).contains_key(s) <==> m.contains_key(s))
            && (m.contains_key(s) ==> owned_by(m, symbols, key)[s] == m[s]),
    decreases symbols.len(),
{
    if symbols.len() > 0 {
        let rest = symbols.drop_last();
        lemma_owned_by(m, rest, key, s);
        assert(symbols =~= rest + seq![symbols.last()]);
        lemma_text_joined(rest, seq![symbols.last()], s);
        assert(seq![symbols.last()][0] == symbols.last());
    }
}

/// Whether a module of a key defines a dispatch symbol that no later one defines.
pub open spec fn last_definer(s: Seq<(Seq<char>, Seq<Item>)>, symbol: Seq<char>, key: Seq<char>) -> bool {
    exists|j: int|
        0 <= j < s.len() && (#[trigger] s[j]).0 == key && defines(s[j].1, symbol) && forall|k: int|
            j < k < s.len() ==> !defines((#[trigger] s[k]).1, symbol)
}

proof fn lemma_owners(s: Seq<(Seq<char>, Seq<Item>)>, symbol: Seq<char>, key: Seq<char>)
    ensures
        owners(s).contains_key(symbol) && owners(s)[symbol] == key <==> last_definer(
            s,
            symbol,
            key,
        ),
    decreases s.len(),
{
    if s.len() > 0 {
        let rest = s.drop_last();
        let n = s.len() - 1;
        lemma_owners(rest, symbol, key);
        modules_define_their_methods(s[n].1, symbol);
        lemma_owned_by(owners(rest), defined(s.last().1), s.last().0, symbol);
        if last_definer(s, symbol, key) {
            let j = choose|j: int|
                0 <= j < s.len() && (#[trigger] s[j]).0 == key && defines(s[j].1, symbol)
                    && forall|k: int|
                    j < k < s.len() ==> !defines((#[trigger] s[k]).1, symbol);
            if j < n {
                assert(!defines(s[n].1, symbol));
                assert(rest[j] == s[j]);
                assert forall|k: int| j < k < rest.len() implies !defines(
                    (#[trigger] rest[k]).1,
                    symbol,
                ) by {
                    assert(rest[k] == s[k]);
                }
            }
        }
        if defines(s[n].1, symbol) {
            if s[n].0 == key {
                assert(last_definer(s, symbol, key));
            }
        } else if last_definer(rest, symbol, key) {
            let j = choose|j: int|
                0 <= j < rest.len() && (#[trigger] rest[j]).0 == key && defines(rest[j].1, symbol)
                    && forall|k: int|
                    j < k < rest.len() ==> !defines((#[trigger] rest[k]).1, symbol);
            assert(s[j] == rest[j]);
            assert forall|k: int| j < k < s.len() implies !defines(
                (#[trigger] s[k]).1,
                symbol,
            ) by {
                if k < n {
                    assert(rest[k] == s[k]);
                }
            }
        }
    }
}

/// A module is compiled behind another exactly where an expression in one of its
/// bodies, at whatever depth, refers to a dispatch symbol that the other is the last
/// to define.
pub proof fn modules_come_behind_what_they_dispatch_to(
    s: Seq<(Seq<char>, Seq<Item>)>,
    from: Seq<char>,
    to: Seq<char>,
)
    ensures
        has_edge(edges(owners(s), s), from, to) <==> from != to && exists|i: int, symbol: Seq<char>|
            0 <= i < s.len() && (#[trigger] s[i]).0 == from && #[trigger] refers(s[i].1, symbol)
                && last_definer(s, symbol, to),
{
    let owner = owners(s);
    edges_are_what_references_demand(owner, s, from, to);
    if demands(owner, s, from, to) {
        let (i, symbol) = choose|i: int, symbol: Seq<char>|
            0 <= i < s.len() && (#[trigger] s[i]).0 == from && #[trigger] referenced(
                s[i].1,
            ).contains(symbol) && owner.contains_key(symbol) && owner[symbol] == to;
        modules_refer_at_every_depth(s[i].1, symbol);
        lemma_owners(s, symbol, to);
        assert(s[i].0 == from && refers(s[i].1, symbol));
    }
    if from != to && exists|i: int, symbol: Seq<char>|
        0 <= i < s.len() && (#[trigger] s[i]).0 == from && #[trigger] refers(s[i].1, symbol)
            && last_definer(s, symbol, to) {
        let (i, symbol) = choose|i: int, symbol: Seq<char>|
            0 <= i < s.len() && (#[trigger] s[i]).0 == from && #[trigger] refers(s[i].1, symbol)
                && last_definer(s, symbol, to);
        modules_refer_at_every_depth(s[i].1, symbol);
        lemma_owners(s, symbol, to);
        assert(referenced(s[i].1).contains(symbol));
    }
}

} // verus!
