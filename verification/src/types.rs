//! Types, as far as compilation reads them.

use vstd::prelude::*;

use crate::text::owned;

verus! {

broadcast use vstd::string::group_string_axioms;

/// The identity of an ability.
pub type AbilityId = u64;

/// A type.
#[derive(Debug, PartialEq, Eq)]
pub enum Type {
    /// The unit type.
    Unit,
    /// An inference variable.
    Var(u32),
    /// A type of a name, applied to arguments.
    Named(String, Vec<Type>),
    /// A function type.
    Function(Vec<Type>, Box<Type>),
    /// The type of handlers of an ability.
    Handler(AbilityId),
}

/// What a [`Type`] says.
pub enum TypeView {
    /// The unit type.
    Unit,
    /// An inference variable.
    Var(u32),
    /// A type of a name, applied to arguments.
    Named(Seq<char>, Seq<TypeView>),
    /// A function type.
    Function(Seq<TypeView>, Box<TypeView>),
    /// The type of handlers of an ability.
    Handler(AbilityId),
}

/// What some types say.
pub open spec fn type_views(s: Seq<Type>) -> Seq<TypeView>
    decreases s,
{
    Seq::new(
        s.len(),
        |i: int|
            if 0 <= i < s.len() {
                type_view(s[i])
            } else {
                TypeView::Unit
            },
    )
}

/// What a type says.
pub open spec fn type_view(t: Type) -> TypeView
    decreases t,
{
    match t {
        Type::Unit => TypeView::Unit,
        Type::Var(v) => TypeView::Var(v),
        Type::Named(name, args) => TypeView::Named(name@, type_views(args@)),
        Type::Function(params, ret) => TypeView::Function(
            type_views(params@),
            Box::new(type_view(*ret)),
        ),
        Type::Handler(a) => TypeView::Handler(a),
    }
}

impl View for Type {
    type V = TypeView;

    open spec fn view(&self) -> TypeView {
        type_view(*self)
    }
}

/// The type of a name without arguments.
pub open spec fn plain_type(name: Seq<char>) -> TypeView {
    TypeView::Named(name, seq![])
}

/// The type of a name applied to one argument.
pub open spec fn applied_type(name: Seq<char>, arg: TypeView) -> TypeView {
    TypeView::Named(name, seq![arg])
}

impl Type {
    /// A type of a name, applied to arguments.
    pub fn named(name: &str, args: Vec<Type>) -> (r: Type)
        ensures
            r@ == TypeView::Named(name@, type_views(args@)),
    {
        Type::Named(owned(name), args)
    }

    /// The type of booleans.
    pub fn bool() -> (r: Type)
        ensures
            r@ == plain_type("Bool"@),
    {
        let args: Vec<Type> = Vec::new();
        assert(type_views(args@) =~= seq![]);
        Type::named("Bool", args)
    }

    /// The type of numbers.
    pub fn number() -> (r: Type)
        ensures
            r@ == plain_type("Number"@),
    {
        let args: Vec<Type> = Vec::new();
        assert(type_views(args@) =~= seq![]);
        Type::named("Number", args)
    }

    /// The type of text.
    pub fn string() -> (r: Type)
        ensures
            r@ == plain_type("String"@),
    {
        let args: Vec<Type> = Vec::new();
        assert(type_views(args@) =~= seq![]);
        Type::named("String", args)
    }

    /// The type of byte strings.
    pub fn binary() -> (r: Type)
        ensures
            r@ == plain_type("Binary"@),
    {
        let args: Vec<Type> = Vec::new();
        assert(type_views(args@) =~= seq![]);
        Type::named("Binary", args)
    }

    /// The type of optional values.
    pub fn option(elem: Type) -> (r: Type)
        ensures
            r@ == applied_type("Option"@, elem@),
    {
        let mut args: Vec<Type> = Vec::new();
        args.push(elem);
        assert(type_views(args@) =~= seq![elem@]);
        Type::named("Option", args)
    }

    /// A copy of the type.
    pub fn copy(&self) -> (r: Type)
        ensures
            r@ == self@,
        decreases *self,
    {
        match self {
            Type::Unit => Type::Unit,
            Type::Var(v) => Type::Var(*v),
            Type::Named(name, args) => Type::Named(owned(name.as_str()), copy_types(args)),
            Type::Function(params, ret) => Type::Function(copy_types(params), Box::new(ret.copy())),
            Type::Handler(a) => Type::Handler(*a),
        }
    }
}

/// Where fresh inference variables come from.
#[derive(Debug)]
pub struct TypeVarGen {
    /// The number of the next variable.
    pub next: u32,
}

impl TypeVarGen {
    /// A supply from which no variable was taken.
    pub fn new() -> (r: TypeVarGen)
        ensures
            r.next == 0,
    {
        TypeVarGen { next: 0 }
    }

    /// The number of a fresh variable.
    pub fn fresh_number(&mut self) -> (r: u32)
        requires
            old(self).next < u32::MAX,
        ensures
            r == old(self).next,
            final(self).next == old(self).next + 1,
    {
        let n: u32 = self.next;
        self.next = n + 1;
        n
    }
}

/// A copy of some types.
pub fn copy_types(s: &Vec<Type>) -> (r: Vec<Type>)
    ensures
        type_views(r@) == type_views(s@),
    decreases s@,
{
    let mut out: Vec<Type> = Vec::new();
    let mut i: usize = 0;
    while i < s.len()
        invariant
            i <= s@.len(),
            out@.len() == i,
            forall|k: int| 0 <= k < i ==> (#[trigger] out@[k])@ == s@[k]@,
        decreases s@.len() - i,
    {
        proof {
            assert(decreases_to!(s@ => s@[i as int]));
        }
        out.push(s[i].copy());
        i = i + 1;
    }
    assert(type_views(out@) =~= type_views(s@));
    out
}

} // verus!
