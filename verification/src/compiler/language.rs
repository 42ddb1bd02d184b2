//! The values of expressions.
//!
//! The language gives an expression a value in an environment, which holds the
//! values of the bindings that are in scope. Nothing here speaks of code.

use vstd::prelude::*;

use crate::ast::{
    name_key, BinaryOp, Expr, ExprKind, Literal, MatchArm, Pattern, PatternKind, QualifiedName,
    ResolvedMethod, Stmt, StmtKind, UnaryOp,
};
use crate::compiler::codegen::{method_ref, unknown_method_text};
use crate::compiler::context::{ability_of, bound_to, function_hash, variant_of, TablesView};
use crate::compiler::machine::{operator_value, EnumVal, Host, Val};
use crate::fqn::KeyView;

verus! {

/// The values of bindings.
pub type Env = Map<u32, Val>;

/// What an operator is where a trait gives it its meaning, from what the trait's
/// method gives: `!=` is the negation of equality, and an ordering compares what the
/// method gives with zero.
pub open spec fn trait_operator_value(m: Host, op: BinaryOp, r: Val) -> Option<Val> {
    match op {
        BinaryOp::Ne => match r {
            Val::Bool(b) => Some(Val::Bool(!b)),
            _ => None,
        },
        BinaryOp::Lt => operator_value(m, op, r, Val::Number(0)),
        BinaryOp::Le => operator_value(m, op, r, Val::Number(0)),
        BinaryOp::Gt => operator_value(m, op, r, Val::Number(0)),
        BinaryOp::Ge => operator_value(m, op, r, Val::Number(0)),
        _ => Some(r),
    }
}

/// The value of a unary operator.
pub open spec fn unary_value(m: Host, op: UnaryOp, v: Val) -> Option<Val> {
    match (op, v) {
        (UnaryOp::Neg, Val::Number(n)) => Some(Val::Number((m.numbers.negated)(n))),
        (UnaryOp::Not, Val::Bool(b)) => Some(Val::Bool(!b)),
        _ => None,
    }
}

/// The value of a name that is no variable: of a constant, of a function, of a
/// variant without a payload, or of a struct without fields.
pub open spec fn name_value(m: Host, t: TablesView, n: QualifiedName) -> Option<Val> {
    let key = name_key(n);
    if t.const_hashes.contains_key(key) {
        Some((m.object)(t.const_hashes[key]))
    } else if t.function_hashes.contains_key(key) {
        if t.thunks.contains(key) {
            Some((m.call)(t.function_hashes[key], seq![]))
        } else {
            Some(Val::Function(t.function_hashes[key]))
        }
    } else {
        match variant_of(t, n) {
            Some(v) => if v.has_payload {
                None
            } else {
                Some(
                    Val::Enum(
                        EnumVal {
                            enum_name: v.enum_name,
                            tag: v.tag,
                            variant: n.name@,
                            payload: seq![],
                        },
                    ),
                )
            },
            None => if t.unit_structs.contains(key) {
                Some(Val::Record(Map::empty()))
            } else {
                None
            },
        }
    }
}

/// The value of a literal.
pub open spec fn literal_value(lit: Literal) -> Val {
    match lit {
        Literal::Unit => Val::Unit,
        Literal::Bool(b) => Val::Bool(b),
        Literal::Number(n) => Val::Number(n),
        Literal::String(s) => Val::Text(s@),
    }
}

/// How a value fits a pattern.
pub enum Fit {
    /// It fits, with these bindings.
    Yes(Env),
    /// It does not fit.
    No,
    /// It cannot be told.
    Unknown,
}

/// How a value fits a pattern in an environment.
pub open spec fn fit(m: Host, t: TablesView, p: Pattern, v: Val, env: Env) -> Fit {
    match p.kind {
        PatternKind::Wildcard => Fit::Yes(env),
        PatternKind::Binding(id, _) => Fit::Yes(env.insert(id, v)),
        PatternKind::Literal(lit) => if (m.same)(v, literal_value(lit)) {
            Fit::Yes(env)
        } else {
            Fit::No
        },
        PatternKind::Variant(name, inner) => match v {
            Val::Enum(e) => if !t.enums.contains_key(name.name@) {
                Fit::Unknown
            } else if e.tag != t.enums[name.name@].tag {
                Fit::No
            } else {
                match inner {
                    None => Fit::Yes(env),
                    Some(sub) => match sub.kind {
                        PatternKind::Binding(id, _) => if e.payload.len() == 1 {
                            Fit::Yes(env.insert(id, e.payload[0]))
                        } else {
                            Fit::Unknown
                        },
                        _ => Fit::Unknown,
                    },
                }
            },
            _ => Fit::Unknown,
        },
        _ => Fit::Unknown,
    }
}

/// The value of an expression; nothing where it has none, or where it makes a closure
/// or a handler.
pub open spec fn value(m: Host, t: TablesView, e: Expr, env: Env) -> Option<Val>
    decreases e, 2int, 0int,
{
    match e.kind {
        ExprKind::Unit => Some(Val::Unit),
        ExprKind::Bool(b) => Some(Val::Bool(b)),
        ExprKind::Number(n) => Some(Val::Number(n)),
        ExprKind::String(s) => Some(Val::Text(s@)),
        ExprKind::Local(id) => bound_to(env, id),
        ExprKind::Name(n) => name_value(m, t, n),
        ExprKind::Tuple(es) => match values(m, t, es@, env) {
            Some(vs) => Some(Val::Tuple(vs)),
            None => None,
        },
        ExprKind::List(es) => match values(m, t, es@, env) {
            Some(vs) => Some(Val::List(vs)),
            None => None,
        },
        ExprKind::TupleIndex(x, i) => match value(m, t, *x, env) {
            Some(Val::Tuple(vs)) => if i < vs.len() {
                Some(vs[i as int])
            } else {
                None
            },
            _ => None,
        },
        ExprKind::Record(fields) => match field_map(m, t, fields@, env) {
            Some(r) => Some(Val::Record(r)),
            None => None,
        },
        ExprKind::TypedRecord { name: _, fields } => match field_map(m, t, fields@, env) {
            Some(r) => Some(Val::Record(r)),
            None => None,
        },
        ExprKind::RecordField(x, name) => match value(m, t, *x, env) {
            Some(Val::Record(r)) => bound_to(r, name@),
            _ => None,
        },
        ExprKind::Binary { op, left, right, resolved_op } => match value(m, t, *left, env) {
            None => None,
            Some(a) => if op == BinaryOp::And || op == BinaryOp::Or {
                match a {
                    Val::Bool(x) => if x == (op == BinaryOp::And) {
                        value(m, t, *right, env)
                    } else {
                        Some(a)
                    },
                    _ => None,
                }
            } else {
                match value(m, t, *right, env) {
                    None => None,
                    Some(b) => match resolved_op {
                        None => operator_value(m, op, a, b),
                        Some(ResolvedMethod::Symbol(s)) => match function_hash(
                            t,
                            KeyView::Bare(s@),
                        ) {
                            Some(h) => trait_operator_value(m, op, (m.call)(h, seq![a, b])),
                            None => None,
                        },
                        _ => None,
                    },
                }
            },
        },
        ExprKind::Unary(op, x) => match value(m, t, *x, env) {
            Some(v) => unary_value(m, op, v),
            None => None,
        },
        ExprKind::If(c, yes, no) => match value(m, t, *c, env) {
            Some(Val::Bool(b)) => if b {
                value(m, t, *yes, env)
            } else {
                match no {
                    Some(n) => value(m, t, *n, env),
                    None => Some(Val::Unit),
                }
            },
            _ => None,
        },
        ExprKind::Match(x, arms) => match value(m, t, *x, env) {
            Some(v) => arms_value(m, t, arms@, 0, v, env),
            None => None,
        },
        ExprKind::Block(stmts, result) => match stmts_env(m, t, stmts@, env) {
            Some(inner) => match result {
                Some(r) => value(m, t, *r, inner),
                None => Some(Val::Unit),
            },
            None => None,
        },
        ExprKind::Call(f, args) => match values(m, t, args@, env) {
            None => None,
            Some(vs) => match f.kind {
                ExprKind::Name(n) => if let Some(h) = function_hash(t, name_key(n)) {
                    Some((m.call)(h, vs))
                } else if let Some(v) = variant_of(t, n) {
                    if v.has_payload && vs.len() == 1 {
                        Some(
                            Val::Enum(
                                EnumVal {
                                    enum_name: v.enum_name,
                                    tag: v.tag,
                                    variant: n.name@,
                                    payload: vs,
                                },
                            ),
                        )
                    } else {
                        None
                    }
                } else {
                    match name_value(m, t, n) {
                        Some(c) => Some((m.apply)(c, vs)),
                        None => None,
                    }
                },
                _ => match value(m, t, *f, env) {
                    Some(c) => Some((m.apply)(c, vs)),
                    None => None,
                },
            },
        },
        ExprKind::MethodCall { receiver, method: _, args, resolved_method } => match (
            value(m, t, *receiver, env),
            values(m, t, args@, env),
            resolved_method,
        ) {
            (Some(r), Some(vs), Some(ResolvedMethod::Symbol(s))) => match function_hash(
                t,
                KeyView::Bare(s@),
            ) {
                Some(h) => Some((m.call)(h, seq![r] + vs)),
                None => None,
            },
            _ => None,
        },
        ExprKind::Perform(c) => match (values(m, t, c.args@, env), ability_of(t, c.ability)) {
            (Some(vs), Some(info)) => match method_ref(
                t,
                info,
                c.method@,
                c.span,
                unknown_method_text(c.method@, info.id),
            ) {
                Ok(method) => Some((m.perform)(method, vs)),
                Err(_) => None,
            },
            _ => None,
        },
        ExprKind::Sandbox(s) => value(m, t, *s.body, env),
        _ => None,
    }
}

/// The values of expressions, in order.
pub open spec fn values(m: Host, t: TablesView, es: Seq<Expr>, env: Env) -> Option<Seq<Val>>
    decreases es, 0int, es.len(),
{
    if es.len() == 0 {
        Some(seq![])
    } else {
        match (values(m, t, es.drop_last(), env), value(m, t, es.last(), env)) {
            (Some(vs), Some(v)) => Some(vs.push(v)),
            _ => None,
        }
    }
}

/// The values of fields, by their names.
pub open spec fn field_map(m: Host, t: TablesView, fields: Seq<(String, Expr)>, env: Env) -> Option<
    Map<Seq<char>, Val>,
>
    decreases fields, 0int, fields.len(),
{
    if fields.len() == 0 {
        Some(Map::empty())
    } else {
        match (field_map(m, t, fields.drop_last(), env), value(m, t, fields.last().1, env)) {
            (Some(r), Some(v)) => Some(r.insert(fields.last().0@, v)),
            _ => None,
        }
    }
}

/// The environment behind statements.
pub open spec fn stmts_env(m: Host, t: TablesView, ss: Seq<Stmt>, env: Env) -> Option<Env>
    decreases ss, 0int, ss.len(),
{
    if ss.len() == 0 {
        Some(env)
    } else {
        match stmts_env(m, t, ss.drop_last(), env) {
            None => None,
            Some(now) => stmt_env(m, t, ss.last(), now),
        }
    }
}

/// The environment behind a statement.
pub open spec fn stmt_env(m: Host, t: TablesView, s: Stmt, env: Env) -> Option<Env>
    decreases s, 1int, 0int,
{
    match s.kind {
        StmtKind::Let(b) => match value(m, t, b.init, env) {
            Some(v) => Some(env.insert(b.id, v)),
            None => None,
        },
        StmtKind::Expr(e) => match value(m, t, e, env) {
            Some(_) => Some(env),
            None => None,
        },
        StmtKind::Use(_) => Some(env),
        StmtKind::Const(_) => None,
    }
}

/// The value of the first arm, from an arm on, that a value fits.
pub open spec fn arms_value(
    m: Host,
    t: TablesView,
    arms: Seq<MatchArm>,
    i: nat,
    v: Val,
    env: Env,
) -> Option<Val>
    decreases arms, 0int, arms.len() - i,
{
    if i >= arms.len() {
        None
    } else {
        match fit(m, t, arms[i as int].pattern, v, env) {
            Fit::Yes(inner) => match arms[i as int].guard {
                None => value(m, t, arms[i as int].body, inner),
                Some(c) => match value(m, t, c, inner) {
                    Some(Val::Bool(true)) => value(m, t, arms[i as int].body, inner),
                    Some(Val::Bool(false)) => arms_value(m, t, arms, i + 1, v, env),
                    _ => None,
                },
            },
            Fit::No => arms_value(m, t, arms, i + 1, v, env),
            Fit::Unknown => None,
        }
    }
}

// ── plain expressions ───────────────────────────────────────────────────────

/// The bindings that were made so far, and their names.
pub struct Made {
    /// The bindings.
    pub ids: Set<u32>,
    /// The names.
    pub names: Set<Seq<char>>,
}

/// One more binding; nothing where it was made before.
pub open spec fn making(b: Made, id: u32, name: Seq<char>) -> Option<Made> {
    if b.ids.contains(id) {
        None
    } else {
        Some(Made { ids: b.ids.insert(id), names: b.names.insert(name) })
    }
}

/// The bindings that were made behind an expression, if it is plain: it makes no
/// closure and no handler and takes no dictionary, no two of its bindings are one, a
/// name in it is no variable, and nothing in it is longer than an instruction can
/// say. A match in it has no guard, binds a payload whole, and ends with its last
/// binding arm.
pub open spec fn plain(t: TablesView, e: Expr, b: Made) -> Option<Made>
    decreases e, 2int, 0int,
{
    match e.kind {
        ExprKind::Unit => Some(b),
        ExprKind::Bool(_) => Some(b),
        ExprKind::Number(_) => Some(b),
        ExprKind::String(_) => Some(b),
        ExprKind::Local(_) => Some(b),
        ExprKind::Name(n) => if e.dicts is None && !(n.bare() && b.names.contains(n.name@)) {
            Some(b)
        } else {
            None
        },
        ExprKind::Tuple(es) => if es@.len() <= u8::MAX {
            plain_all(t, es@, b)
        } else {
            None
        },
        ExprKind::List(es) => if es@.len() <= u16::MAX {
            plain_all(t, es@, b)
        } else {
            None
        },
        ExprKind::TupleIndex(x, i) => if i <= u8::MAX {
            plain(t, *x, b)
        } else {
            None
        },
        ExprKind::Record(fields) => if fields@.len() <= u8::MAX {
            plain_fields(t, fields@, b)
        } else {
            None
        },
        ExprKind::TypedRecord { name: _, fields } => if fields@.len() <= u8::MAX {
            plain_fields(t, fields@, b)
        } else {
            None
        },
        ExprKind::RecordField(x, _) => plain(t, *x, b),
        ExprKind::Binary { op: _, left, right, resolved_op } => if resolved_op matches Some(
            ResolvedMethod::DictSlot { .. },
        ) {
            None
        } else {
            match plain(t, *left, b) {
                Some(c) => plain(t, *right, c),
                None => None,
            }
        },
        ExprKind::Unary(_, x) => plain(t, *x, b),
        ExprKind::If(c, yes, no) => match plain(t, *c, b) {
            None => None,
            Some(b1) => match plain(t, *yes, b1) {
                None => None,
                Some(b2) => match no {
                    Some(n) => plain(t, *n, b2),
                    None => Some(b2),
                },
            },
        },
        ExprKind::Match(x, arms) => match plain(t, *x, b) {
            Some(c) => plain_arms(t, arms@, 0, c),
            None => None,
        },
        ExprKind::Block(stmts, result) => match plain_stmts(t, stmts@, b) {
            None => None,
            Some(c) => match result {
                Some(r) => plain(t, *r, c),
                None => Some(c),
            },
        },
        ExprKind::Call(f, args) => if f.dicts is None && args@.len() < u8::MAX {
            match plain(t, *f, b) {
                Some(c) => plain_all(t, args@, c),
                None => None,
            }
        } else {
            None
        },
        ExprKind::MethodCall { receiver, method: _, args, resolved_method } => if e.dicts is None
            && args@.len() < u8::MAX && (resolved_method matches Some(ResolvedMethod::Symbol(_))) {
            match plain(t, *receiver, b) {
                Some(c) => plain_all(t, args@, c),
                None => None,
            }
        } else {
            None
        },
        ExprKind::Perform(c) => if e.dicts is None && c.args@.len() <= u8::MAX {
            plain_all(t, c.args@, b)
        } else {
            None
        },
        ExprKind::Sandbox(s) => plain(t, *s.body, b),
        _ => None,
    }
}

/// The bindings that were made behind plain expressions.
pub open spec fn plain_all(t: TablesView, es: Seq<Expr>, b: Made) -> Option<Made>
    decreases es, 0int, es.len(),
{
    if es.len() == 0 {
        Some(b)
    } else {
        match plain_all(t, es.drop_last(), b) {
            Some(c) => plain(t, es.last(), c),
            None => None,
        }
    }
}

/// The bindings that were made behind plain fields.
pub open spec fn plain_fields(t: TablesView, fields: Seq<(String, Expr)>, b: Made) -> Option<Made>
    decreases fields, 0int, fields.len(),
{
    if fields.len() == 0 {
        Some(b)
    } else {
        match plain_fields(t, fields.drop_last(), b) {
            Some(c) => plain(t, fields.last().1, c),
            None => None,
        }
    }
}

/// The bindings that were made behind plain statements.
pub open spec fn plain_stmts(t: TablesView, ss: Seq<Stmt>, b: Made) -> Option<Made>
    decreases ss, 0int, ss.len(),
{
    if ss.len() == 0 {
        Some(b)
    } else {
        match plain_stmts(t, ss.drop_last(), b) {
            Some(c) => plain_stmt(t, ss.last(), c),
            None => None,
        }
    }
}

/// The bindings that were made behind a plain statement.
pub open spec fn plain_stmt(t: TablesView, s: Stmt, b: Made) -> Option<Made>
    decreases s, 1int, 0int,
{
    match s.kind {
        StmtKind::Let(l) => match plain(t, l.init, b) {
            Some(c) => making(c, l.id, l.name@),
            None => None,
        },
        StmtKind::Expr(e) => plain(t, e, b),
        StmtKind::Use(_) => Some(b),
        StmtKind::Const(_) => None,
    }
}

/// The bindings that were made behind a plain pattern.
pub open spec fn plain_pattern(p: Pattern, is_last: bool, b: Made) -> Option<Made> {
    match p.kind {
        PatternKind::Binding(id, name) => if is_last {
            making(b, id, name@)
        } else {
            None
        },
        PatternKind::Literal(_) => Some(b),
        PatternKind::Variant(_, None) => Some(b),
        PatternKind::Variant(_, Some(sub)) => match sub.kind {
            PatternKind::Binding(id, name) => making(b, id, name@),
            _ => None,
        },
        _ => None,
    }
}

/// The bindings that were made behind plain arms, from an arm on.
pub open spec fn plain_arms(t: TablesView, arms: Seq<MatchArm>, i: nat, b: Made) -> Option<Made>
    decreases arms, 0int, arms.len() - i,
{
    if i >= arms.len() {
        Some(b)
    } else if arms[i as int].guard is Some {
        None
    } else {
        match plain_pattern(arms[i as int].pattern, i == arms.len() - 1, b) {
            None => None,
            Some(c) => match plain(t, arms[i as int].body, c) {
                None => None,
                Some(d) => plain_arms(t, arms, i + 1, d),
            },
        }
    }
}

} // verus!
