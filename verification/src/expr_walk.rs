//! Walking over the expressions of a module.

use vstd::prelude::*;

use crate::ast::{
    Expr, ExprKind, HandlerLiteralMethod, Item, ItemKind, ImplMethod, AbilityMethod, MatchArm, Stmt,
    StmtKind,
};
use crate::compiler::items::referents;

verus! {

/// The expression that may be there.
pub open spec fn optional(e: Option<Box<Expr>>) -> Seq<Expr> {
    match e {
        Some(e) => seq![*e],
        None => seq![],
    }
}

/// The values of fields.
pub open spec fn field_values(s: Seq<(String, Expr)>) -> Seq<Expr> {
    Seq::new(s.len(), |i: int| s[i].1)
}

/// The bodies of the arms of a handler.
pub open spec fn handler_bodies(s: Seq<HandlerLiteralMethod>) -> Seq<Expr> {
    Seq::new(s.len(), |i: int| s[i].body)
}

/// The guards and bodies of the arms of a match, in order.
pub open spec fn arm_parts(s: Seq<MatchArm>) -> Seq<Expr>
    decreases s.len(),
{
    if s.len() == 0 {
        seq![]
    } else {
        let before = arm_parts(s.drop_last());
        match s.last().guard {
            Some(g) => before.push(g).push(s.last().body),
            None => before.push(s.last().body),
        }
    }
}

/// The expressions of statements, in order.
pub open spec fn statement_parts(s: Seq<Stmt>) -> Seq<Expr>
    decreases s.len(),
{
    if s.len() == 0 {
        seq![]
    } else {
        let before = statement_parts(s.drop_last());
        match s.last().kind {
            StmtKind::Let(b) => before.push(b.init),
            StmtKind::Expr(e) => before.push(e),
            StmtKind::Const(d) => before.push(d.value),
            StmtKind::Use(_) => before,
        }
    }
}

/// The expressions that an expression is made of, in order.
pub open spec fn parts(e: Expr) -> Seq<Expr> {
    match e.kind {
        ExprKind::Unit
        | ExprKind::Bool(_)
        | ExprKind::Number(_)
        | ExprKind::String(_)
        | ExprKind::Local(_)
        | ExprKind::Name(_) => seq![],
        ExprKind::Tuple(es) => es@,
        ExprKind::List(es) => es@,
        ExprKind::TupleIndex(x, _) => seq![*x],
        ExprKind::RecordField(x, _) => seq![*x],
        ExprKind::Unary(_, x) => seq![*x],
        ExprKind::Resume(x) => seq![*x],
        ExprKind::Record(fields) => field_values(fields@),
        ExprKind::TypedRecord { name: _, fields } => field_values(fields@),
        ExprKind::Binary { op: _, left, right, resolved_op: _ } => seq![*left, *right],
        ExprKind::If(c, t, f) => seq![*c, *t] + optional(f),
        ExprKind::Match(x, arms) => seq![*x] + arm_parts(arms@),
        ExprKind::Block(stmts, result) => statement_parts(stmts@) + optional(result),
        ExprKind::Lambda(l) => seq![*l.body],
        ExprKind::Call(f, args) => seq![*f] + args@,
        ExprKind::Perform(c) => c.args@,
        ExprKind::Handle(h) => h.handlers@ + seq![*h.body] + optional(h.else_clause),
        ExprKind::HandlerLiteral(h) => handler_bodies(h.methods@),
        ExprKind::Sandbox(s) => seq![*s.body],
        ExprKind::MethodCall { receiver, method: _, args, resolved_method: _ } => seq![*receiver]
            + args@,
    }
}

proof fn lemma_arm_parts_smaller(s: Seq<MatchArm>, all: Seq<MatchArm>, n: int, i: int)
    requires
        0 <= n <= all.len(),
        s == all.take(n),
        0 <= i < arm_parts(s).len(),
    ensures
        decreases_to!(all => arm_parts(s)[i]),
    decreases s.len(),
{
    let before = arm_parts(s.drop_last());
    assert(s.drop_last() =~= all.take(n - 1));
    if i < before.len() {
        lemma_arm_parts_smaller(s.drop_last(), all, n - 1, i);
    } else {
        assert(s.last() == all[n - 1]);
        assert(decreases_to!(all => all[n - 1]));
        let arm = all[n - 1];
        assert(decreases_to!(arm => arm.body));
        assert(decreases_to!(arm => arm.guard));
        if let Some(g) = arm.guard {
            assert(decreases_to!(arm.guard => g));
        }
    }
}

proof fn lemma_statement_parts_smaller(s: Seq<Stmt>, all: Seq<Stmt>, n: int, i: int)
    requires
        0 <= n <= all.len(),
        s == all.take(n),
        0 <= i < statement_parts(s).len(),
    ensures
        decreases_to!(all => statement_parts(s)[i]),
    decreases s.len(),
{
    let before = statement_parts(s.drop_last());
    assert(s.drop_last() =~= all.take(n - 1));
    if i < before.len() {
        lemma_statement_parts_smaller(s.drop_last(), all, n - 1, i);
    } else {
        assert(s.last() == all[n - 1]);
        let stmt = all[n - 1];
        assert(decreases_to!(all => all[n - 1]));
        assert(decreases_to!(stmt => stmt.kind));
        match stmt.kind {
            StmtKind::Let(b) => {
                assert(decreases_to!(stmt.kind => b));
                assert(decreases_to!(b => b.init));
            },
            StmtKind::Expr(e) => {
                assert(decreases_to!(stmt.kind => e));
            },
            StmtKind::Const(d) => {
                assert(decreases_to!(stmt.kind => d));
                assert(decreases_to!(d => d.value));
            },
            StmtKind::Use(_) => {},
        }
    }
}

/// An expression that may be there is smaller than what it may be in.
proof fn lemma_optional_smaller(e: Option<Box<Expr>>)
    ensures
        e is Some ==> decreases_to!(e => optional(e)[0]),
{
}

/// What an expression is made of is smaller than the expression.
pub proof fn part_is_smaller(e: Expr, i: int)
    requires
        0 <= i < parts(e).len(),
    ensures
        decreases_to!(e => parts(e)[i]),
{
    let k = e.kind;
    assert(decreases_to!(e => e.kind));
    match k {
        ExprKind::Tuple(es) => {
            assert(decreases_to!(k => es));
            assert(decreases_to!(es => es@));
            assert(decreases_to!(es@ => es@[i]));
        },
        ExprKind::List(es) => {
            assert(decreases_to!(k => es));
            assert(decreases_to!(es => es@));
            assert(decreases_to!(es@ => es@[i]));
        },
        ExprKind::Record(fields) => {
            assert(decreases_to!(k => fields));
            assert(decreases_to!(fields => fields@));
            assert(decreases_to!(fields@ => fields@[i]));
            let f = fields@[i];
            assert(decreases_to!(f => f.1));
        },
        ExprKind::TypedRecord { name: _, fields } => {
            assert(decreases_to!(k => fields));
            assert(decreases_to!(fields => fields@));
            assert(decreases_to!(fields@ => fields@[i]));
            let f = fields@[i];
            assert(decreases_to!(f => f.1));
        },
        ExprKind::If(c, t, f) => {
            assert(decreases_to!(k => f));
            lemma_optional_smaller(f);
        },
        ExprKind::Match(x, arms) => {
            assert(decreases_to!(k => arms));
            assert(decreases_to!(arms => arms@));
            if i > 0 {
                assert(arms@.take(arms@.len() as int) =~= arms@);
                lemma_arm_parts_smaller(arms@, arms@, arms@.len() as int, i - 1);
            }
        },
        ExprKind::Block(stmts, result) => {
            assert(decreases_to!(k => stmts));
            assert(decreases_to!(stmts => stmts@));
            assert(decreases_to!(k => result));
            lemma_optional_smaller(result);
            if i < statement_parts(stmts@).len() {
                assert(stmts@.take(stmts@.len() as int) =~= stmts@);
                lemma_statement_parts_smaller(stmts@, stmts@, stmts@.len() as int, i);
            }
        },
        ExprKind::Lambda(l) => {
            assert(decreases_to!(k => l));
            assert(decreases_to!(l => l.body));
        },
        ExprKind::Call(f, args) => {
            assert(decreases_to!(k => args));
            assert(decreases_to!(args => args@));
            if i > 0 {
                assert(decreases_to!(args@ => args@[i - 1]));
            }
        },
        ExprKind::Perform(c) => {
            assert(decreases_to!(k => c));
            assert(decreases_to!(c => c.args));
            assert(decreases_to!(c.args => c.args@));
            assert(decreases_to!(c.args@ => c.args@[i]));
        },
        ExprKind::Handle(h) => {
            assert(decreases_to!(k => h));
            assert(decreases_to!(h => h.handlers));
            assert(decreases_to!(h.handlers => h.handlers@));
            assert(decreases_to!(h => h.body));
            assert(decreases_to!(h => h.else_clause));
            lemma_optional_smaller(h.else_clause);
            if i < h.handlers@.len() {
                assert(decreases_to!(h.handlers@ => h.handlers@[i]));
            }
        },
        ExprKind::HandlerLiteral(h) => {
            assert(decreases_to!(k => h));
            assert(decreases_to!(h => h.methods));
            assert(decreases_to!(h.methods => h.methods@));
            assert(decreases_to!(h.methods@ => h.methods@[i]));
            let m = h.methods@[i];
            assert(decreases_to!(m => m.body));
        },
        ExprKind::Sandbox(s) => {
            assert(decreases_to!(k => s));
            assert(decreases_to!(s => s.body));
        },
        ExprKind::MethodCall { receiver, method: _, args, resolved_method: _ } => {
            assert(decreases_to!(k => args));
            assert(decreases_to!(args => args@));
            if i > 0 {
                assert(decreases_to!(args@ => args@[i - 1]));
            }
        },
        _ => {},
    }
}

/// Append references to expressions.
fn push_all<'a>(out: &mut Vec<&'a Expr>, s: &'a Vec<Expr>)
    ensures
        referents(final(out)@) == referents(old(out)@) + s@,
{
    let ghost was = referents(out@);
    let mut i: usize = 0;
    assert(referents(out@) =~= was + s@.take(0));
    while i < s.len()
        invariant
            i <= s@.len(),
            referents(out@) == was + s@.take(i as int),
        decreases s@.len() - i,
    {
        let ghost now = referents(out@);
        out.push(&s[i]);
        assert(referents(out@) =~= now.push(s@[i as int]));
        i = i + 1;
        assert(referents(out@) =~= was + s@.take(i as int));
    }
    assert(s@.take(s@.len() as int) =~= s@);
}

/// Append a reference to an expression.
fn push_one<'a>(out: &mut Vec<&'a Expr>, e: &'a Expr)
    ensures
        referents(final(out)@) == referents(old(out)@).push(*e),
{
    let ghost was = referents(out@);
    out.push(e);
    assert(referents(out@) =~= was.push(*e));
}

/// Append a reference to an expression that may be there.
fn push_optional<'a>(out: &mut Vec<&'a Expr>, e: &'a Option<Box<Expr>>)
    ensures
        referents(final(out)@) == referents(old(out)@) + optional(*e),
{
    let ghost was = referents(out@);
    match e {
        Some(e) => {
            push_one(out, e);
            assert(was.push(**e) =~= was + seq![**e]);
        },
        None => {
            assert(was =~= was + seq![]);
        },
    }
}

/// References to the values of fields.
fn values_of<'a>(fields: &'a Vec<(String, Expr)>) -> (r: Vec<&'a Expr>)
    ensures
        referents(r@) == field_values(fields@),
{
    let mut out: Vec<&'a Expr> = Vec::new();
    let mut i: usize = 0;
    while i < fields.len()
        invariant
            i <= fields@.len(),
            out@.len() == i,
            forall|k: int| 0 <= k < i ==> *(#[trigger] out@[k]) == fields@[k].1,
        decreases fields@.len() - i,
    {
        out.push(&fields[i].1);
        i = i + 1;
    }
    assert(referents(out@) =~= field_values(fields@));
    out
}

/// References to the bodies of the arms of a handler.
fn bodies_of<'a>(methods: &'a Vec<HandlerLiteralMethod>) -> (r: Vec<&'a Expr>)
    ensures
        referents(r@) == handler_bodies(methods@),
{
    let mut out: Vec<&'a Expr> = Vec::new();
    let mut i: usize = 0;
    while i < methods.len()
        invariant
            i <= methods@.len(),
            out@.len() == i,
            forall|k: int| 0 <= k < i ==> *(#[trigger] out@[k]) == methods@[k].body,
        decreases methods@.len() - i,
    {
        out.push(&methods[i].body);
        i = i + 1;
    }
    assert(referents(out@) =~= handler_bodies(methods@));
    out
}

/// Append references to the guards and bodies of the arms of a match.
fn push_arms<'a>(out: &mut Vec<&'a Expr>, arms: &'a Vec<MatchArm>)
    ensures
        referents(final(out)@) == referents(old(out)@) + arm_parts(arms@),
{
    let ghost was = referents(out@);
    let mut i: usize = 0;
    assert(arms@.take(0) =~= seq![]);
    assert(was =~= was + arm_parts(arms@.take(0)));
    while i < arms.len()
        invariant
            i <= arms@.len(),
            referents(out@) == was + arm_parts(arms@.take(i as int)),
        decreases arms@.len() - i,
    {
        assert(arms@.take(i + 1).drop_last() =~= arms@.take(i as int));
        let arm: &'a MatchArm = &arms[i];
        assert(arms@.take(i + 1).last() == *arm);
        if let Some(g) = &arm.guard {
            push_one(out, g);
        }
        push_one(out, &arm.body);
        assert(referents(out@) =~= was + arm_parts(arms@.take(i + 1)));
        i = i + 1;
    }
    assert(arms@.take(arms@.len() as int) =~= arms@);
}

/// References to the expressions of statements.
fn statement_exprs<'a>(stmts: &'a Vec<Stmt>) -> (r: Vec<&'a Expr>)
    ensures
        referents(r@) == statement_parts(stmts@),
{
    let mut out: Vec<&'a Expr> = Vec::new();
    let mut i: usize = 0;
    assert(stmts@.take(0) =~= seq![]);
    assert(referents(out@) =~= statement_parts(stmts@.take(0)));
    while i < stmts.len()
        invariant
            i <= stmts@.len(),
            referents(out@) == statement_parts(stmts@.take(i as int)),
        decreases stmts@.len() - i,
    {
        assert(stmts@.take(i + 1).drop_last() =~= stmts@.take(i as int));
        let stmt: &'a Stmt = &stmts[i];
        assert(stmts@.take(i + 1).last() == *stmt);
        match &stmt.kind {
            StmtKind::Let(b) => push_one(&mut out, &b.init),
            StmtKind::Expr(e) => push_one(&mut out, e),
            StmtKind::Const(d) => push_one(&mut out, &d.value),
            StmtKind::Use(_) => {},
        }
        i = i + 1;
    }
    assert(stmts@.take(stmts@.len() as int) =~= stmts@);
    out
}

/// References to the expressions that an expression is made of, in order.
pub fn parts_of<'a>(e: &'a Expr) -> (r: Vec<&'a Expr>)
    ensures
        referents(r@) == parts(*e),
{
    let mut out: Vec<&'a Expr> = Vec::new();
    assert(referents(out@) =~= seq![]);
    match &e.kind {
        ExprKind::Unit
        | ExprKind::Bool(_)
        | ExprKind::Number(_)
        | ExprKind::String(_)
        | ExprKind::Local(_)
        | ExprKind::Name(_) => {},
        ExprKind::Tuple(es) => push_all(&mut out, es),
        ExprKind::List(es) => push_all(&mut out, es),
        ExprKind::TupleIndex(x, _) => push_one(&mut out, x),
        ExprKind::RecordField(x, _) => push_one(&mut out, x),
        ExprKind::Unary(_, x) => push_one(&mut out, x),
        ExprKind::Resume(x) => push_one(&mut out, x),
        ExprKind::Record(fields) => {
            out = values_of(fields);
        },
        ExprKind::TypedRecord { name: _, fields } => {
            out = values_of(fields);
        },
        ExprKind::Binary { op: _, left, right, resolved_op: _ } => {
            push_one(&mut out, left);
            push_one(&mut out, right);
        },
        ExprKind::If(c, t, f) => {
            push_one(&mut out, c);
            push_one(&mut out, t);
            push_optional(&mut out, f);
        },
        ExprKind::Match(x, arms) => {
            push_one(&mut out, x);
            push_arms(&mut out, arms);
        },
        ExprKind::Block(stmts, result) => {
            out = statement_exprs(stmts);
            push_optional(&mut out, result);
        },
        ExprKind::Lambda(l) => push_one(&mut out, &l.body),
        ExprKind::Call(f, args) => {
            push_one(&mut out, f);
            push_all(&mut out, args);
        },
        ExprKind::Perform(c) => push_all(&mut out, &c.args),
        ExprKind::Handle(h) => {
            push_all(&mut out, &h.handlers);
            push_one(&mut out, &h.body);
            push_optional(&mut out, &h.else_clause);
        },
        ExprKind::HandlerLiteral(h) => {
            out = bodies_of(&h.methods);
        },
        ExprKind::Sandbox(s) => push_one(&mut out, &s.body),
        ExprKind::MethodCall { receiver, method: _, args, resolved_method: _ } => {
            push_one(&mut out, receiver);
            push_all(&mut out, args);
        },
    }
    assert(referents(out@) =~= parts(*e));
    out
}

// ── items ───────────────────────────────────────────────────────────────────

/// The default implementations of methods, in order.
pub open spec fn default_bodies(s: Seq<AbilityMethod>) -> Seq<Expr>
    decreases s.len(),
{
    if s.len() == 0 {
        seq![]
    } else {
        match s.last().body {
            Some(b) => default_bodies(s.drop_last()).push(b),
            None => default_bodies(s.drop_last()),
        }
    }
}

/// The bodies of methods.
pub open spec fn method_bodies(s: Seq<ImplMethod>) -> Seq<Expr> {
    Seq::new(s.len(), |i: int| s[i].body)
}

/// The expressions that an item is made of: the body of a function, of each
/// method of an impl, and of each default implementation of an ability.
pub open spec fn bodies(item: Item) -> Seq<Expr> {
    match item.kind {
        ItemKind::Function(d) => seq![d.body],
        ItemKind::Impl(d) => method_bodies(d.methods@),
        ItemKind::Ability(d) => default_bodies(d.methods@),
        _ => seq![],
    }
}

/// References to the expressions that an item is made of.
pub fn item_bodies<'a>(item: &'a Item) -> (r: Vec<&'a Expr>)
    ensures
        referents(r@) == bodies(*item),
{
    let mut out: Vec<&'a Expr> = Vec::new();
    assert(referents(out@) =~= seq![]);
    match &item.kind {
        ItemKind::Function(d) => push_one(&mut out, &d.body),
        ItemKind::Impl(d) => {
            let mut i: usize = 0;
            while i < d.methods.len()
                invariant
                    i <= d.methods@.len(),
                    out@.len() == i,
                    forall|k: int| 0 <= k < i ==> *(#[trigger] out@[k]) == d.methods@[k].body,
                decreases d.methods@.len() - i,
            {
                out.push(&d.methods[i].body);
                i = i + 1;
            }
        },
        ItemKind::Ability(d) => {
            let ghost ms = d.methods@;
            let mut i: usize = 0;
            assert(ms.take(0) =~= seq![]);
            while i < d.methods.len()
                invariant
                    i <= d.methods@.len(),
                    ms == d.methods@,
                    referents(out@) == default_bodies(ms.take(i as int)),
                decreases d.methods@.len() - i,
            {
                assert(ms.take(i + 1).drop_last() =~= ms.take(i as int));
                let m: &'a AbilityMethod = &d.methods[i];
                assert(ms.take(i + 1).last() == *m);
                if let Some(b) = &m.body {
                    push_one(&mut out, b);
                }
                i = i + 1;
            }
            assert(ms.take(ms.len() as int) =~= ms);
        },
        _ => {},
    }
    assert(referents(out@) =~= bodies(*item));
    out
}

} // verus!
