//! Compilation errors.

use vstd::prelude::*;

use crate::ast::BindingId;
use crate::text::{decimal_text, owned, push_decimal, push_text};

verus! {

broadcast use vstd::string::group_string_axioms;

/// An error that occurred during compilation.
#[derive(Debug)]
pub struct CompileError {
    /// The kind of error.
    pub kind: CompileErrorKind,
    /// The byte range in the source.
    pub span: (u32, u32),
}

/// The kind of a compilation error.
#[derive(Debug, PartialEq, Eq)]
pub enum CompileErrorKind {
    /// A reference to a function that is not defined.
    UndefinedFunction { name: String },
    /// A reference to a local that is not defined.
    UndefinedLocal { id: BindingId },
    /// Too many local variables.
    TooManyLocals { count: usize },
    /// Too many constants.
    TooManyConstants { count: usize },
    /// A construct that is not supported.
    Unsupported { feature: String },
    /// An ability that is not registered.
    UnknownAbility { name: String },
    /// A method that an ability does not have.
    UnknownAbilityMethod { ability: String, method: String },
    /// A native function that the host does not bind.
    UnboundExternFn { name: String },
    /// A native function that the host binds with another number of
    /// parameters.
    ExternArityMismatch { name: String, declared: u8, bound: u8 },
    /// A broken invariant of the compiler.
    Internal { message: &'static str },
}

/// What a [`CompileErrorKind`] says.
pub enum KindView {
    /// A reference to a function that is not defined.
    UndefinedFunction { name: Seq<char> },
    /// A reference to a local that is not defined.
    UndefinedLocal { id: BindingId },
    /// Too many local variables.
    TooManyLocals { count: usize },
    /// Too many constants.
    TooManyConstants { count: usize },
    /// A construct that is not supported.
    Unsupported { feature: Seq<char> },
    /// An ability that is not registered.
    UnknownAbility { name: Seq<char> },
    /// A method that an ability does not have.
    UnknownAbilityMethod { ability: Seq<char>, method: Seq<char> },
    /// A native function that the host does not bind.
    UnboundExternFn { name: Seq<char> },
    /// A native function that the host binds with another number of
    /// parameters.
    ExternArityMismatch { name: Seq<char>, declared: u8, bound: u8 },
    /// A broken invariant of the compiler.
    Internal { message: Seq<char> },
}

/// What a [`CompileError`] says.
pub struct ErrorView {
    /// The kind of error.
    pub kind: KindView,
    /// The byte range in the source.
    pub span: (u32, u32),
}

impl View for CompileErrorKind {
    type V = KindView;

    open spec fn view(&self) -> KindView {
        match *self {
            CompileErrorKind::UndefinedFunction { name } => KindView::UndefinedFunction {
                name: name@,
            },
            CompileErrorKind::UndefinedLocal { id } => KindView::UndefinedLocal { id },
            CompileErrorKind::TooManyLocals { count } => KindView::TooManyLocals { count },
            CompileErrorKind::TooManyConstants { count } => KindView::TooManyConstants { count },
            CompileErrorKind::Unsupported { feature } => KindView::Unsupported {
                feature: feature@,
            },
            CompileErrorKind::UnknownAbility { name } => KindView::UnknownAbility { name: name@ },
            CompileErrorKind::UnknownAbilityMethod { ability, method } =>
                KindView::UnknownAbilityMethod { ability: ability@, method: method@ },
            CompileErrorKind::UnboundExternFn { name } => KindView::UnboundExternFn { name: name@ },
            CompileErrorKind::ExternArityMismatch { name, declared, bound } =>
                KindView::ExternArityMismatch { name: name@, declared, bound },
            CompileErrorKind::Internal { message } => KindView::Internal { message: message@ },
        }
    }
}

impl View for CompileError {
    type V = ErrorView;

    open spec fn view(&self) -> ErrorView {
        ErrorView { kind: self.kind@, span: self.span }
    }
}

impl KindView {
    /// The text of the error.
    pub open spec fn text(self) -> Seq<char> {
        match self {
            KindView::UndefinedFunction { name } => "undefined function: `"@ + name + "`"@,
            KindView::UndefinedLocal { id } => "undefined local variable: binding "@
                + decimal_text(id as nat),
            KindView::TooManyLocals { count } => "too many local variables: "@ + decimal_text(
                count as nat,
            ) + " (max 65535)"@,
            KindView::TooManyConstants { count } => "too many constants: "@ + decimal_text(
                count as nat,
            ) + " (max 65535)"@,
            KindView::Unsupported { feature } => "unsupported feature: "@ + feature,
            KindView::UnknownAbility { name } => "unknown ability: `"@ + name + "`"@,
            KindView::UnknownAbilityMethod { ability, method } => "unknown ability method: `"@
                + ability + "."@ + method + "`"@,
            KindView::UnboundExternFn { name } => "extern fn `"@ + name
                + "` has no host binding"@,
            KindView::ExternArityMismatch { name, declared, bound } => "extern fn `"@ + name
                + "` declares "@ + decimal_text(declared as nat)
                + " parameters but its host binding takes "@ + decimal_text(bound as nat),
            KindView::Internal { message } => "internal compiler error: "@ + message,
        }
    }
}

impl CompileError {
    /// An error of a kind at a place.
    pub fn new(kind: CompileErrorKind, span: (u32, u32)) -> (r: CompileError)
        ensures
            r.kind == kind,
            r.span == span,
            r@ == (ErrorView { kind: kind@, span }),
    {
        CompileError { kind, span }
    }

    /// The text of the error.
    pub fn message(&self) -> (r: String)
        ensures
            r@ == self@.kind.text(),
    {
        self.kind.message()
    }

    /// A broken invariant of the compiler.
    pub fn internal(message: &'static str, span: (u32, u32)) -> (r: CompileError)
        ensures
            r@ == (ErrorView { kind: KindView::Internal { message: message@ }, span }),
    {
        CompileError { kind: CompileErrorKind::Internal { message }, span }
    }

    /// A construct that is not supported.
    pub fn unsupported(feature: String, span: (u32, u32)) -> (r: CompileError)
        ensures
            r@ == (ErrorView { kind: KindView::Unsupported { feature: feature@ }, span }),
    {
        CompileError { kind: CompileErrorKind::Unsupported { feature }, span }
    }

    /// A reference to a function that is not defined.
    pub fn undefined_function(name: &str, span: (u32, u32)) -> (r: CompileError)
        ensures
            r@ == (ErrorView { kind: KindView::UndefinedFunction { name: name@ }, span }),
    {
        CompileError { kind: CompileErrorKind::UndefinedFunction { name: owned(name) }, span }
    }
}

impl CompileErrorKind {
    /// The text of the error.
    pub fn message(&self) -> (r: String)
        ensures
            r@ == self@.text(),
    {
        match self {
            CompileErrorKind::UndefinedFunction { name } => {
                let mut out = owned("undefined function: `");
                push_text(&mut out, name.as_str());
                push_text(&mut out, "`");
                out
            },
            CompileErrorKind::UndefinedLocal { id } => {
                let mut out = owned("undefined local variable: binding ");
                push_decimal(&mut out, *id as u64);
                out
            },
            CompileErrorKind::TooManyLocals { count } => {
                let mut out = owned("too many local variables: ");
                push_decimal(&mut out, *count as u64);
                push_text(&mut out, " (max 65535)");
                out
            },
            CompileErrorKind::TooManyConstants { count } => {
                let mut out = owned("too many constants: ");
                push_decimal(&mut out, *count as u64);
                push_text(&mut out, " (max 65535)");
                out
            },
            CompileErrorKind::Unsupported { feature } => {
                let mut out = owned("unsupported feature: ");
                push_text(&mut out, feature.as_str());
                out
            },
            CompileErrorKind::UnknownAbility { name } => {
                let mut out = owned("unknown ability: `");
                push_text(&mut out, name.as_str());
                push_text(&mut out, "`");
                out
            },
            CompileErrorKind::UnknownAbilityMethod { ability, method } => {
                let mut out = owned("unknown ability method: `");
                push_text(&mut out, ability.as_str());
                push_text(&mut out, ".");
                push_text(&mut out, method.as_str());
                push_text(&mut out, "`");
                out
            },
            CompileErrorKind::UnboundExternFn { name } => {
                let mut out = owned("extern fn `");
                push_text(&mut out, name.as_str());
                push_text(&mut out, "` has no host binding");
                out
            },
            CompileErrorKind::ExternArityMismatch { name, declared, bound } => {
                let mut out = owned("extern fn `");
                push_text(&mut out, name.as_str());
                push_text(&mut out, "` declares ");
                push_decimal(&mut out, *declared as u64);
                push_text(&mut out, " parameters but its host binding takes ");
                push_decimal(&mut out, *bound as u64);
                out
            },
            CompileErrorKind::Internal { message } => {
                let mut out = owned("internal compiler error: ");
                push_text(&mut out, message);
                out
            },
        }
    }
}

} // verus!
