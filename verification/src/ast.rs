//! The checked syntax tree that compilation reads.

use vstd::prelude::*;

use crate::fqn::{Fqn, KeyView, NameKey};
use crate::module_paths::{join_texts, joined, texts};
use crate::text::{owned, push_text};
use crate::types::{AbilityId, Type};

verus! {

broadcast use vstd::string::group_string_axioms;

/// The identity of a binding.
pub type BindingId = u32;

/// A byte range in the source.
#[derive(Debug, Clone, Copy, PartialEq, Eq, Structural)]
pub struct Span {
    /// Where it begins.
    pub start: u32,
    /// Where it ends.
    pub end: u32,
}

impl Default for Span {
    fn default() -> (r: Span)
        ensures
            r.start == 0,
            r.end == 0,
    {
        Span { start: 0, end: 0 }
    }
}

impl Span {
    /// A byte range.
    pub fn new(start: u32, end: u32) -> (r: Span)
        ensures
            r.start == start,
            r.end == end,
    {
        Span { start, end }
    }

    /// The range as a pair.
    pub open spec fn pair(self) -> (u32, u32) {
        (self.start, self.end)
    }

    /// The range as a pair.
    pub fn as_pair(&self) -> (r: (u32, u32))
        ensures
            r == self.pair(),
    {
        (self.start, self.end)
    }
}

/// A name as it is written, and the item it was found to mean.
#[derive(Debug, PartialEq, Eq)]
pub struct QualifiedName {
    /// The segments before the name.
    pub path: Vec<String>,
    /// The name.
    pub name: String,
    /// The item that the name means, where that is known.
    pub resolved: Option<Fqn>,
}

/// A name with the segments before it, joined by `::`.
pub open spec fn joined_name(n: QualifiedName) -> Seq<char> {
    if n.path@.len() == 0 {
        n.name@
    } else {
        joined(texts(n.path@)) + "::"@ + n.name@
    }
}

/// The key that a name is looked up by: the item it means, else the name as it
/// is written.
pub open spec fn name_key(n: QualifiedName) -> KeyView {
    match n.resolved {
        Some(f) => KeyView::Item(f@),
        None => KeyView::Bare(joined_name(n)),
    }
}

impl QualifiedName {
    /// A bare name.
    pub fn simple(name: &str) -> (r: QualifiedName)
        ensures
            r.path@.len() == 0,
            r.name@ == name@,
            r.resolved is None,
    {
        QualifiedName { path: Vec::new(), name: owned(name), resolved: None }
    }

    /// The name with the segments before it.
    pub fn joined(&self) -> (r: String)
        ensures
            r@ == joined_name(*self),
    {
        if self.path.len() == 0 {
            owned(self.name.as_str())
        } else {
            let mut out = join_texts(&self.path);
            push_text(&mut out, "::");
            push_text(&mut out, self.name.as_str());
            out
        }
    }

    /// The key that the name is looked up by.
    pub fn resolution_key(&self) -> (r: NameKey)
        ensures
            r@ == name_key(*self),
    {
        match &self.resolved {
            Some(f) => NameKey::Item(f.copy()),
            None => NameKey::Bare(self.joined()),
        }
    }

    /// Whether the name is a bare one whose meaning is not settled.
    pub open spec fn bare(self) -> bool {
        self.path@.len() == 0 && self.resolved is None
    }

    /// Whether the name is a bare one whose meaning is not settled.
    pub fn is_bare(&self) -> (r: bool)
        ensures
            r == self.bare(),
    {
        self.path.len() == 0 && self.resolved.is_none()
    }
}

/// A binary operator.
#[derive(Debug, Clone, Copy, PartialEq, Eq, Structural)]
pub enum BinaryOp {
    /// `+`
    Add,
    /// `-`
    Sub,
    /// `*`
    Mul,
    /// `/`
    Div,
    /// `%`
    Mod,
    /// `==`
    Eq,
    /// `!=`
    Ne,
    /// `<`
    Lt,
    /// `<=`
    Le,
    /// `>`
    Gt,
    /// `>=`
    Ge,
    /// `&&`
    And,
    /// `||`
    Or,
}

/// A unary operator.
#[derive(Debug, Clone, Copy, PartialEq, Eq, Structural)]
pub enum UnaryOp {
    /// `-`
    Neg,
    /// `!`
    Not,
}

/// Where a method call was found to lead.
#[derive(Debug, PartialEq, Eq)]
pub enum ResolvedMethod {
    /// To the method of a dispatch symbol.
    Symbol(String),
    /// To a slot of one of the enclosing function's dictionaries.
    DictSlot { dict_index: usize, slot: usize },
}

/// A method of a conditional impl, as a dictionary holds it.
#[derive(Debug, PartialEq, Eq)]
pub struct DictMethod {
    /// The dispatch symbol.
    pub symbol: String,
    /// The number of value arguments.
    pub arity: usize,
    /// The number of dictionaries that the method itself takes.
    pub method_dict_count: usize,
}

/// Where a dictionary comes from.
#[derive(Debug, PartialEq, Eq)]
pub enum DictSource {
    /// The methods of an impl.
    Impl { symbols: Vec<String> },
    /// A dictionary that the enclosing function takes.
    Param { dict_index: usize },
    /// A conditional impl, with the dictionaries that it needs itself.
    Generic { methods: Vec<DictMethod>, inner: Vec<DictSource> },
}

/// The dictionaries that a call supplies.
#[derive(Debug, PartialEq, Eq)]
pub enum Dicts {
    /// The dictionaries, in order.
    Resolved(Vec<DictSource>),
    /// Constraints that were not solved.
    Pending(Vec<String>),
}

/// An expression.
#[derive(Debug, PartialEq, Eq)]
pub struct Expr {
    /// What it is.
    pub kind: ExprKind,
    /// Where it is.
    pub span: Span,
    /// Its type, where it was inferred.
    pub ty: Option<Type>,
    /// The dictionaries that it supplies.
    pub dicts: Option<Dicts>,
}

/// The kinds of expressions. A number is given by its bits.
#[derive(Debug, PartialEq, Eq)]
pub enum ExprKind {
    /// `()`
    Unit,
    /// A boolean.
    Bool(bool),
    /// A number, by the bits of its double-precision form.
    Number(u64),
    /// Text.
    String(String),
    /// A binding.
    Local(BindingId),
    /// A name.
    Name(QualifiedName),
    /// A tuple.
    Tuple(Vec<Expr>),
    /// An element of a tuple.
    TupleIndex(Box<Expr>, usize),
    /// A record.
    Record(Vec<(String, Expr)>),
    /// A record of a named type.
    TypedRecord { name: QualifiedName, fields: Vec<(String, Expr)> },
    /// A field of a record.
    RecordField(Box<Expr>, String),
    /// A list.
    List(Vec<Expr>),
    /// A binary operator applied.
    Binary {
        op: BinaryOp,
        left: Box<Expr>,
        right: Box<Expr>,
        resolved_op: Option<ResolvedMethod>,
    },
    /// A unary operator applied.
    Unary(UnaryOp, Box<Expr>),
    /// A conditional.
    If(Box<Expr>, Box<Expr>, Option<Box<Expr>>),
    /// A match.
    Match(Box<Expr>, Vec<MatchArm>),
    /// A block.
    Block(Vec<Stmt>, Option<Box<Expr>>),
    /// A lambda.
    Lambda(Lambda),
    /// A call.
    Call(Box<Expr>, Vec<Expr>),
    /// A method of an ability performed.
    Perform(AbilityCall),
    /// Handlers installed around a body.
    Handle(HandleExpr),
    /// A continuation resumed.
    Resume(Box<Expr>),
    /// A handler.
    HandlerLiteral(HandlerLiteralExpr),
    /// A body that may use only some abilities.
    Sandbox(SandboxExpr),
    /// A method call.
    MethodCall {
        receiver: Box<Expr>,
        method: String,
        args: Vec<Expr>,
        resolved_method: Option<ResolvedMethod>,
    },
}

/// A parameter.
#[derive(Debug, PartialEq, Eq)]
pub struct Param {
    /// The binding.
    pub id: BindingId,
    /// The name.
    pub name: String,
}

/// A lambda.
#[derive(Debug, PartialEq, Eq)]
pub struct Lambda {
    /// The parameters.
    pub params: Vec<Param>,
    /// The body.
    pub body: Box<Expr>,
}

/// A literal in a pattern.
#[derive(Debug, PartialEq, Eq)]
pub enum Literal {
    /// `()`
    Unit,
    /// A boolean.
    Bool(bool),
    /// A number, by the bits of its double-precision form.
    Number(u64),
    /// Text.
    String(String),
}

/// A pattern.
#[derive(Debug, PartialEq, Eq)]
pub struct Pattern {
    /// What it is.
    pub kind: PatternKind,
    /// Where it is.
    pub span: Span,
}

/// The kinds of patterns.
#[derive(Debug, PartialEq, Eq)]
pub enum PatternKind {
    /// Matches anything.
    Wildcard,
    /// Matches anything and binds it.
    Binding(BindingId, String),
    /// Matches one value.
    Literal(Literal),
    /// Matches a variant, and its payload with a pattern.
    Variant(QualifiedName, Option<Box<Pattern>>),
    /// Matches a tuple.
    Tuple(Vec<Pattern>),
    /// Matches a record.
    Record(Vec<(String, Pattern)>),
}

/// An arm of a match.
#[derive(Debug, PartialEq, Eq)]
pub struct MatchArm {
    /// What it matches.
    pub pattern: Pattern,
    /// What must hold besides.
    pub guard: Option<Expr>,
    /// What it gives.
    pub body: Expr,
}

/// A statement.
#[derive(Debug, PartialEq, Eq)]
pub struct Stmt {
    /// What it is.
    pub kind: StmtKind,
    /// Where it is.
    pub span: Span,
}

/// The kinds of statements.
#[derive(Debug, PartialEq, Eq)]
pub enum StmtKind {
    /// A binding.
    Let(LetBinding),
    /// An expression for its effect.
    Expr(Expr),
    /// An import.
    Use(QualifiedName),
    /// A constant of the block.
    Const(ConstDef),
}

/// A binding with its value.
#[derive(Debug, PartialEq, Eq)]
pub struct LetBinding {
    /// The binding.
    pub id: BindingId,
    /// The name.
    pub name: String,
    /// Where the name is.
    pub name_span: Span,
    /// The type, where one is written.
    pub ty: Option<Type>,
    /// The value.
    pub init: Expr,
}

/// A constant.
#[derive(Debug, PartialEq, Eq)]
pub struct ConstDef {
    /// The binding.
    pub id: BindingId,
    /// The name.
    pub name: String,
    /// Where the name is.
    pub name_span: Span,
    /// Whether other modules see it.
    pub is_public: bool,
    /// The type, where one is written.
    pub ty: Option<Type>,
    /// The value.
    pub value: Expr,
}

/// A method of an ability performed.
#[derive(Debug, PartialEq, Eq)]
pub struct AbilityCall {
    /// The ability.
    pub ability: QualifiedName,
    /// The method.
    pub method: String,
    /// The arguments.
    pub args: Vec<Expr>,
    /// Where it is.
    pub span: Span,
}

/// Handlers installed around a body.
#[derive(Debug, PartialEq, Eq)]
pub struct HandleExpr {
    /// The handlers, in order.
    pub handlers: Vec<Expr>,
    /// The body.
    pub body: Box<Expr>,
    /// What is applied to the body's value.
    pub else_clause: Option<Box<Expr>>,
}

/// A handler.
#[derive(Debug, PartialEq, Eq)]
pub struct HandlerLiteralExpr {
    /// The methods it handles.
    pub methods: Vec<HandlerLiteralMethod>,
}

/// An arm of a handler.
#[derive(Debug, PartialEq, Eq)]
pub struct HandlerLiteralMethod {
    /// The ability.
    pub ability: QualifiedName,
    /// The method.
    pub method: String,
    /// The parameters.
    pub params: Vec<Param>,
    /// The body.
    pub body: Expr,
    /// Where it is.
    pub span: Span,
}

/// A body that may use only some abilities.
#[derive(Debug, PartialEq, Eq)]
pub struct SandboxExpr {
    /// The abilities that it may use.
    pub allowed: Vec<QualifiedName>,
    /// The body.
    pub body: Box<Expr>,
}

/// A trait bound of a type parameter.
#[derive(Debug, PartialEq, Eq)]
pub struct TypeParam {
    /// The name.
    pub name: String,
    /// The traits that it is bound by.
    pub bounds: Vec<QualifiedName>,
}

/// A function.
#[derive(Debug, PartialEq, Eq)]
pub struct FunctionDef {
    /// The name.
    pub name: String,
    /// Where the name is.
    pub name_span: Span,
    /// Whether other modules see it.
    pub is_public: bool,
    /// The type parameters.
    pub type_params: Vec<TypeParam>,
    /// The parameters.
    pub params: Vec<Param>,
    /// The return type, where one is written.
    pub ret_ty: Option<Type>,
    /// The abilities it uses.
    pub abilities: Vec<QualifiedName>,
    /// The body.
    pub body: Expr,
}

/// A native function.
#[derive(Debug, PartialEq, Eq)]
pub struct ExternFnDef {
    /// The name.
    pub name: String,
    /// Where the name is.
    pub name_span: Span,
    /// The parameters.
    pub params: Vec<Param>,
}

/// A variant of an enum.
#[derive(Debug, PartialEq, Eq)]
pub struct EnumVariant {
    /// The name.
    pub name: String,
    /// The type of the payload, if it has one.
    pub payload: Option<Type>,
}

/// An enum.
#[derive(Debug, PartialEq, Eq)]
pub struct EnumDef {
    /// The name.
    pub name: String,
    /// Where the name is.
    pub name_span: Span,
    /// Whether other modules see it.
    pub is_public: bool,
    /// The type parameters.
    pub type_params: Vec<TypeParam>,
    /// The variants, in order.
    pub variants: Vec<EnumVariant>,
    /// The identity.
    pub uuid: [u8; 16],
}

/// A struct.
#[derive(Debug, PartialEq, Eq)]
pub struct StructDef {
    /// The name.
    pub name: String,
    /// The fields, with their types; a struct without a field list has none.
    pub fields: Option<Vec<(String, Type)>>,
}

impl StructDef {
    /// Whether the name of the struct is a value.
    pub fn is_unit_value(&self) -> (r: bool)
        ensures
            r == (self.fields is None),
    {
        self.fields.is_none()
    }
}

/// A method of an ability.
#[derive(Debug, PartialEq, Eq)]
pub struct AbilityMethod {
    /// The name.
    pub name: String,
    /// The type parameters.
    pub type_params: Vec<TypeParam>,
    /// The parameters.
    pub params: Vec<Param>,
    /// The default implementation, if there is one.
    pub body: Option<Expr>,
    /// Whether it never returns.
    pub never: bool,
    /// The hash of the signature, where it is known.
    pub resolved_signature: Option<[u8; 32]>,
    /// Where it is.
    pub span: Span,
}

/// An ability.
#[derive(Debug, PartialEq, Eq)]
pub struct AbilityDef {
    /// The name.
    pub name: String,
    /// Where the name is.
    pub name_span: Span,
    /// The identity.
    pub uuid: [u8; 16],
    /// The identity at run time, where it is known.
    pub resolved_id: Option<AbilityId>,
    /// The methods, in order.
    pub methods: Vec<AbilityMethod>,
}

/// A method of an impl.
#[derive(Debug, PartialEq, Eq)]
pub struct ImplMethod {
    /// The name.
    pub name: String,
    /// Whether it takes `self`.
    pub has_self: bool,
    /// The binding of `self`.
    pub self_id: BindingId,
    /// The type parameters.
    pub type_params: Vec<TypeParam>,
    /// The parameters.
    pub params: Vec<Param>,
    /// The body.
    pub body: Expr,
    /// The dispatch symbol, where it is known.
    pub resolved_symbol: Option<String>,
    /// Where it is.
    pub span: Span,
}

/// An impl.
#[derive(Debug, PartialEq, Eq)]
pub struct ImplDef {
    /// The trait, unless the methods are the type's own.
    pub trait_name: Option<QualifiedName>,
    /// The type, as it is written.
    pub for_type: String,
    /// The type parameters.
    pub type_params: Vec<TypeParam>,
    /// The methods, in order.
    pub methods: Vec<ImplMethod>,
}

/// The kinds of items.
#[derive(Debug, PartialEq, Eq)]
pub enum ItemKind {
    /// A function.
    Function(FunctionDef),
    /// A native function.
    ExternFn(ExternFnDef),
    /// A constant.
    Const(ConstDef),
    /// A struct.
    Struct(StructDef),
    /// A type alias.
    TypeAlias(String),
    /// An enum.
    Enum(EnumDef),
    /// An ability.
    Ability(AbilityDef),
    /// An import.
    Use(QualifiedName),
    /// A trait.
    Trait(String),
    /// An impl.
    Impl(ImplDef),
}

/// An item.
#[derive(Debug, PartialEq, Eq)]
pub struct Item {
    /// What it is.
    pub kind: ItemKind,
    /// Where it is.
    pub span: Span,
}

/// A module.
#[derive(Debug, PartialEq, Eq)]
pub struct Module {
    /// The name.
    pub name: String,
    /// The documentation.
    pub doc: Option<String>,
    /// The items, in order.
    pub items: Vec<Item>,
}

// ── making trees ────────────────────────────────────────────────────────────

impl Param {
    /// A parameter.
    pub fn new(id: BindingId, name: &str) -> (r: Param)
        ensures
            r.id == id,
            r.name@ == name@,
    {
        Param { id, name: owned(name) }
    }
}

impl Item {
    /// An item.
    pub fn new(kind: ItemKind, span: Span) -> (r: Item)
        ensures
            r.kind == kind,
            r.span == span,
    {
        Item { kind, span }
    }
}

impl Stmt {
    /// A statement.
    pub fn new(kind: StmtKind, span: Span) -> (r: Stmt)
        ensures
            r.kind == kind,
            r.span == span,
    {
        Stmt { kind, span }
    }
}

impl MatchArm {
    /// An arm without a guard.
    pub fn new(pattern: Pattern, body: Expr) -> (r: MatchArm)
        ensures
            r.pattern == pattern,
            r.guard is None,
            r.body == body,
    {
        MatchArm { pattern, guard: None, body }
    }
}

impl Pattern {
    /// A pattern.
    pub fn new(kind: PatternKind, span: Span) -> (r: Pattern)
        ensures
            r.kind == kind,
            r.span == span,
    {
        Pattern { kind, span }
    }

    /// A pattern that matches anything.
    pub fn wildcard() -> (r: Pattern)
        ensures
            r.kind == PatternKind::Wildcard,
            r.span == (Span { start: 0, end: 0 }),
    {
        Pattern { kind: PatternKind::Wildcard, span: Span { start: 0, end: 0 } }
    }

    /// A pattern that matches anything and binds it.
    pub fn binding(id: BindingId, name: &str) -> (r: Pattern)
        ensures
            r.kind matches PatternKind::Binding(i, n) && i == id && n@ == name@,
            r.span == (Span { start: 0, end: 0 }),
    {
        Pattern { kind: PatternKind::Binding(id, owned(name)), span: Span { start: 0, end: 0 } }
    }

    /// A pattern that matches one value.
    pub fn literal(lit: Literal) -> (r: Pattern)
        ensures
            r.kind == PatternKind::Literal(lit),
            r.span == (Span { start: 0, end: 0 }),
    {
        Pattern { kind: PatternKind::Literal(lit), span: Span { start: 0, end: 0 } }
    }

    /// A pattern that matches a variant.
    pub fn variant(name: &str, inner: Option<Pattern>) -> (r: Pattern)
        ensures
            r.kind matches PatternKind::Variant(n, i) && n.name@ == name@ && n.bare() && (
            i is Some <==> inner is Some) && (inner matches Some(p) ==> *i->0 == p),
            r.span == (Span { start: 0, end: 0 }),
    {
        let boxed = match inner {
            Some(p) => Some(Box::new(p)),
            None => None,
        };
        Pattern {
            kind: PatternKind::Variant(QualifiedName::simple(name), boxed),
            span: Span { start: 0, end: 0 },
        }
    }
}

impl Expr {
    /// Whether the expression has no place in the source, no type and no
    /// dictionaries.
    pub open spec fn unplaced(self) -> bool {
        self.span == (Span { start: 0, end: 0 }) && self.ty is None && self.dicts is None
    }

    /// An expression.
    pub fn new(kind: ExprKind, span: Span) -> (r: Expr)
        ensures
            r.kind == kind,
            r.span == span,
            r.ty is None,
            r.dicts is None,
    {
        Expr { kind, span, ty: None, dicts: None }
    }

    /// An expression without a place in the source.
    fn bare(kind: ExprKind) -> (r: Expr)
        ensures
            r.kind == kind,
            r.unplaced(),
    {
        Expr::new(kind, Span { start: 0, end: 0 })
    }

    /// `()`
    pub fn unit() -> (r: Expr)
        ensures
            r.kind == ExprKind::Unit,
            r.unplaced(),
    {
        Expr::bare(ExprKind::Unit)
    }

    /// A boolean.
    pub fn bool(b: bool) -> (r: Expr)
        ensures
            r.kind == ExprKind::Bool(b),
            r.unplaced(),
    {
        Expr::bare(ExprKind::Bool(b))
    }

    /// The number of some bits.
    pub fn number(bits: u64) -> (r: Expr)
        ensures
            r.kind == ExprKind::Number(bits),
            r.unplaced(),
    {
        Expr::bare(ExprKind::Number(bits))
    }

    /// Text.
    pub fn string(s: &str) -> (r: Expr)
        ensures
            r.kind matches ExprKind::String(t) && t@ == s@,
            r.unplaced(),
    {
        Expr::bare(ExprKind::String(owned(s)))
    }

    /// A binding.
    pub fn local(id: BindingId) -> (r: Expr)
        ensures
            r.kind == ExprKind::Local(id),
            r.unplaced(),
    {
        Expr::bare(ExprKind::Local(id))
    }

    /// A bare name.
    pub fn name(name: &str) -> (r: Expr)
        ensures
            r.kind matches ExprKind::Name(n) && n.name@ == name@ && n.bare(),
            r.unplaced(),
    {
        Expr::bare(ExprKind::Name(QualifiedName::simple(name)))
    }

    /// A tuple.
    pub fn tuple(elements: Vec<Expr>) -> (r: Expr)
        ensures
            r.kind == ExprKind::Tuple(elements),
            r.unplaced(),
    {
        Expr::bare(ExprKind::Tuple(elements))
    }

    /// An element of a tuple.
    pub fn tuple_index(tuple: Expr, index: usize) -> (r: Expr)
        ensures
            r.kind == ExprKind::TupleIndex(Box::new(tuple), index),
            r.unplaced(),
    {
        Expr::bare(ExprKind::TupleIndex(Box::new(tuple), index))
    }

    /// A record.
    pub fn record(fields: Vec<(String, Expr)>) -> (r: Expr)
        ensures
            r.kind == ExprKind::Record(fields),
            r.unplaced(),
    {
        Expr::bare(ExprKind::Record(fields))
    }

    /// A field of a record.
    pub fn field_access(record: Expr, field: &str) -> (r: Expr)
        ensures
            r.kind matches ExprKind::RecordField(e, f) && *e == record && f@ == field@,
            r.unplaced(),
    {
        Expr::bare(ExprKind::RecordField(Box::new(record), owned(field)))
    }

    /// A binary operator applied.
    pub fn binary(op: BinaryOp, left: Expr, right: Expr) -> (r: Expr)
        ensures
            r.kind == (ExprKind::Binary {
                op,
                left: Box::new(left),
                right: Box::new(right),
                resolved_op: None,
            }),
            r.unplaced(),
    {
        Expr::bare(
            ExprKind::Binary {
                op,
                left: Box::new(left),
                right: Box::new(right),
                resolved_op: None,
            },
        )
    }

    /// A unary operator applied.
    pub fn unary(op: UnaryOp, operand: Expr) -> (r: Expr)
        ensures
            r.kind == ExprKind::Unary(op, Box::new(operand)),
            r.unplaced(),
    {
        Expr::bare(ExprKind::Unary(op, Box::new(operand)))
    }

    /// A conditional.
    pub fn if_then_else(cond: Expr, then_branch: Expr, else_branch: Option<Expr>) -> (r: Expr)
        ensures
            r.kind matches ExprKind::If(c, t, e) && *c == cond && *t == then_branch && (e is Some
                <==> else_branch is Some) && (else_branch matches Some(x) ==> *e->0 == x),
            r.unplaced(),
    {
        let boxed = match else_branch {
            Some(e) => Some(Box::new(e)),
            None => None,
        };
        Expr::bare(ExprKind::If(Box::new(cond), Box::new(then_branch), boxed))
    }

    /// A match.
    pub fn match_expr(scrutinee: Expr, arms: Vec<MatchArm>) -> (r: Expr)
        ensures
            r.kind == ExprKind::Match(Box::new(scrutinee), arms),
            r.unplaced(),
    {
        Expr::bare(ExprKind::Match(Box::new(scrutinee), arms))
    }

    /// A block.
    pub fn block(stmts: Vec<Stmt>, result: Option<Expr>) -> (r: Expr)
        ensures
            r.kind matches ExprKind::Block(s, e) && s == stmts && (e is Some <==> result is Some)
                && (result matches Some(x) ==> *e->0 == x),
            r.unplaced(),
    {
        let boxed = match result {
            Some(e) => Some(Box::new(e)),
            None => None,
        };
        Expr::bare(ExprKind::Block(stmts, boxed))
    }

    /// A lambda.
    pub fn lambda(params: Vec<Param>, body: Expr) -> (r: Expr)
        ensures
            r.kind == ExprKind::Lambda(Lambda { params, body: Box::new(body) }),
            r.unplaced(),
    {
        Expr::bare(ExprKind::Lambda(Lambda { params, body: Box::new(body) }))
    }

    /// A call.
    pub fn call(callee: Expr, args: Vec<Expr>) -> (r: Expr)
        ensures
            r.kind == ExprKind::Call(Box::new(callee), args),
            r.unplaced(),
    {
        Expr::bare(ExprKind::Call(Box::new(callee), args))
    }
}

} // verus!
