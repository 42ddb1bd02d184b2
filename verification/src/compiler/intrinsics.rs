//! The built-in functions of the `core` library that compile to an instruction of
//! their own.
//!
//! Each has a home module, a name, a number of arguments, an instruction, and a
//! type signature, all in one table. A signature may mention up to two type
//! variables, which are fresh at each use of the function.

use vstd::prelude::*;

use crate::ast::{Expr, QualifiedName};
use crate::compiler::code::{Op, Opcode};
use crate::compiler::codegen::exprs_code;
use crate::compiler::context::{FunctionCompiler, ModuleContext, ModuleTables, TablesView};
use crate::compiler::dicts::{followed, reached, Code, Gen};
use crate::compiler::error::CompileError;
use crate::compiler::expr::compile_exprs;
use crate::compiler::machine::{
    computes, last, stack_effect, takes_one, takes_two, CoreFunction, Frame, Host, Val,
};
use crate::fqn::path_of;
use crate::module_paths::{copy_texts, own_texts_from, str_texts, texts, texts_same};
use crate::order::text_same;
use crate::text::owned;
use crate::types::{applied_type, plain_type, type_views, Type, TypeVarGen, TypeView};

verus! {

broadcast use vstd::string::group_string_axioms;

/// The modules that built-in functions live in.
#[derive(Debug, Clone, Copy, PartialEq, Eq, Structural)]
pub enum Home {
    /// `core::primitives::Number`
    Number,
    /// `core::collections::List`
    List,
    /// `core::primitives::String`
    Text,
    /// `core::convert`
    Convert,
    /// `core::collections::map`
    Maps,
    /// `core::collections::set`
    Sets,
    /// `core::reflect`
    Reflect,
    /// `core::protocol`
    Protocol,
    /// `core::primitives::Binary`
    Binary,
}

/// A type without arguments, or a type variable.
#[derive(Debug, Clone, Copy, PartialEq, Eq, Structural)]
pub enum Atom {
    /// Numbers.
    Number,
    /// Text.
    Text,
    /// Booleans.
    Bool,
    /// Byte strings.
    Binary,
    /// The first type variable.
    First,
    /// The second type variable.
    Second,
}

/// A type in a signature.
#[derive(Debug, Clone, Copy, PartialEq, Eq, Structural)]
pub enum Form {
    /// A type without arguments, or a type variable.
    Plain(Atom),
    /// A list.
    ListOf(Atom),
    /// A set.
    SetOf(Atom),
    /// An optional value.
    OptionOf(Atom),
    /// A map.
    MapOf(Atom, Atom),
}

/// The parameters of a signature.
#[derive(Debug, Clone, Copy, PartialEq, Eq, Structural)]
pub enum Params {
    /// None.
    Zero,
    /// One.
    One(Form),
    /// Two.
    Two(Form, Form),
    /// Three.
    Three(Form, Form, Form),
}

/// A built-in function.
#[derive(Debug)]
pub struct Intrinsic {
    /// The module it lives in.
    pub home: Home,
    /// The name.
    pub name: &'static str,
    /// The number of arguments.
    pub arity: u8,
    /// The instruction.
    pub opcode: Opcode,
    /// The types of the parameters.
    pub params: Params,
    /// The type of the result.
    pub ret: Form,
}

/// The path of a module.
pub open spec fn home_path(h: Home) -> Seq<Seq<char>> {
    match h {
        Home::Number => seq!["core"@, "primitives"@, "Number"@],
        Home::List => seq!["core"@, "collections"@, "List"@],
        Home::Text => seq!["core"@, "primitives"@, "String"@],
        Home::Convert => seq!["core"@, "convert"@],
        Home::Maps => seq!["core"@, "collections"@, "map"@],
        Home::Sets => seq!["core"@, "collections"@, "set"@],
        Home::Reflect => seq!["core"@, "reflect"@],
        Home::Protocol => seq!["core"@, "protocol"@],
        Home::Binary => seq!["core"@, "primitives"@, "Binary"@],
    }
}

impl Home {
    /// The path of the module.
    pub fn path(&self) -> (r: Vec<String>)
        ensures
            texts(r@) == home_path(*self),
    {
        let r = match self {
            Home::Number => own_texts_from(&["core", "primitives", "Number"], 0),
            Home::List => own_texts_from(&["core", "collections", "List"], 0),
            Home::Text => own_texts_from(&["core", "primitives", "String"], 0),
            Home::Convert => own_texts_from(&["core", "convert"], 0),
            Home::Maps => own_texts_from(&["core", "collections", "map"], 0),
            Home::Sets => own_texts_from(&["core", "collections", "set"], 0),
            Home::Reflect => own_texts_from(&["core", "reflect"], 0),
            Home::Protocol => own_texts_from(&["core", "protocol"], 0),
            Home::Binary => own_texts_from(&["core", "primitives", "Binary"], 0),
        };
        assert(texts(r@) =~= home_path(*self));
        r
    }
}

/// The number of built-in functions.
pub const INTRINSIC_COUNT: usize = 83;

/// The built-in function of a number.
pub open spec fn intrinsic(i: int) -> Intrinsic {
    match i as usize {
        0 => Intrinsic {
            home: Home::Number,
            name: "sqrt",
            arity: 1,
            opcode: Opcode::Sqrt,
            params: Params::One(Form::Plain(Atom::Number)),
            ret: Form::Plain(Atom::Number),
        },
        1 => Intrinsic {
            home: Home::Number,
            name: "abs",
            arity: 1,
            opcode: Opcode::Abs,
            params: Params::One(Form::Plain(Atom::Number)),
            ret: Form::Plain(Atom::Number),
        },
        2 => Intrinsic {
            home: Home::Number,
            name: "floor",
            arity: 1,
            opcode: Opcode::Floor,
            params: Params::One(Form::Plain(Atom::Number)),
            ret: Form::Plain(Atom::Number),
        },
        3 => Intrinsic {
            home: Home::Number,
            name: "ceil",
            arity: 1,
            opcode: Opcode::Ceil,
            params: Params::One(Form::Plain(Atom::Number)),
            ret: Form::Plain(Atom::Number),
        },
        4 => Intrinsic {
            home: Home::Number,
            name: "round",
            arity: 1,
            opcode: Opcode::Round,
            params: Params::One(Form::Plain(Atom::Number)),
            ret: Form::Plain(Atom::Number),
        },
        5 => Intrinsic {
            home: Home::Number,
            name: "trunc",
            arity: 1,
            opcode: Opcode::Trunc,
            params: Params::One(Form::Plain(Atom::Number)),
            ret: Form::Plain(Atom::Number),
        },
        6 => Intrinsic {
            home: Home::Number,
            name: "sin",
            arity: 1,
            opcode: Opcode::Sin,
            params: Params::One(Form::Plain(Atom::Number)),
            ret: Form::Plain(Atom::Number),
        },
        7 => Intrinsic {
            home: Home::Number,
            name: "cos",
            arity: 1,
            opcode: Opcode::Cos,
            params: Params::One(Form::Plain(Atom::Number)),
            ret: Form::Plain(Atom::Number),
        },
        8 => Intrinsic {
            home: Home::Number,
            name: "tan",
            arity: 1,
            opcode: Opcode::Tan,
            params: Params::One(Form::Plain(Atom::Number)),
            ret: Form::Plain(Atom::Number),
        },
        9 => Intrinsic {
            home: Home::Number,
            name: "ln",
            arity: 1,
            opcode: Opcode::Ln,
            params: Params::One(Form::Plain(Atom::Number)),
            ret: Form::Plain(Atom::Number),
        },
        10 => Intrinsic {
            home: Home::Number,
            name: "exp",
            arity: 1,
            opcode: Opcode::Exp,
            params: Params::One(Form::Plain(Atom::Number)),
            ret: Form::Plain(Atom::Number),
        },
        11 => Intrinsic {
            home: Home::Number,
            name: "pow",
            arity: 2,
            opcode: Opcode::Pow,
            params: Params::Two(Form::Plain(Atom::Number), Form::Plain(Atom::Number)),
            ret: Form::Plain(Atom::Number),
        },
        12 => Intrinsic {
            home: Home::Number,
            name: "min",
            arity: 2,
            opcode: Opcode::Min,
            params: Params::Two(Form::Plain(Atom::Number), Form::Plain(Atom::Number)),
            ret: Form::Plain(Atom::Number),
        },
        13 => Intrinsic {
            home: Home::Number,
            name: "max",
            arity: 2,
            opcode: Opcode::Max,
            params: Params::Two(Form::Plain(Atom::Number), Form::Plain(Atom::Number)),
            ret: Form::Plain(Atom::Number),
        },
        14 => Intrinsic {
            home: Home::Number,
            name: "asin",
            arity: 1,
            opcode: Opcode::Asin,
            params: Params::One(Form::Plain(Atom::Number)),
            ret: Form::Plain(Atom::Number),
        },
        15 => Intrinsic {
            home: Home::Number,
            name: "acos",
            arity: 1,
            opcode: Opcode::Acos,
            params: Params::One(Form::Plain(Atom::Number)),
            ret: Form::Plain(Atom::Number),
        },
        16 => Intrinsic {
            home: Home::Number,
            name: "atan",
            arity: 1,
            opcode: Opcode::Atan,
            params: Params::One(Form::Plain(Atom::Number)),
            ret: Form::Plain(Atom::Number),
        },
        17 => Intrinsic {
            home: Home::Number,
            name: "atan2",
            arity: 2,
            opcode: Opcode::Atan2,
            params: Params::Two(Form::Plain(Atom::Number), Form::Plain(Atom::Number)),
            ret: Form::Plain(Atom::Number),
        },
        18 => Intrinsic {
            home: Home::Number,
            name: "log10",
            arity: 1,
            opcode: Opcode::Log10,
            params: Params::One(Form::Plain(Atom::Number)),
            ret: Form::Plain(Atom::Number),
        },
        19 => Intrinsic {
            home: Home::Number,
            name: "log2",
            arity: 1,
            opcode: Opcode::Log2,
            params: Params::One(Form::Plain(Atom::Number)),
            ret: Form::Plain(Atom::Number),
        },
        20 => Intrinsic {
            home: Home::List,
            name: "length",
            arity: 1,
            opcode: Opcode::ListLength,
            params: Params::One(Form::ListOf(Atom::First)),
            ret: Form::Plain(Atom::Number),
        },
        21 => Intrinsic {
            home: Home::List,
            name: "get",
            arity: 2,
            opcode: Opcode::ListGet,
            params: Params::Two(Form::ListOf(Atom::First), Form::Plain(Atom::Number)),
            ret: Form::OptionOf(Atom::First),
        },
        22 => Intrinsic {
            home: Home::List,
            name: "head",
            arity: 1,
            opcode: Opcode::ListHead,
            params: Params::One(Form::ListOf(Atom::First)),
            ret: Form::OptionOf(Atom::First),
        },
        23 => Intrinsic {
            home: Home::List,
            name: "tail",
            arity: 1,
            opcode: Opcode::ListTail,
            params: Params::One(Form::ListOf(Atom::First)),
            ret: Form::ListOf(Atom::First),
        },
        24 => Intrinsic {
            home: Home::List,
            name: "concat",
            arity: 2,
            opcode: Opcode::ListConcat,
            params: Params::Two(Form::ListOf(Atom::First), Form::ListOf(Atom::First)),
            ret: Form::ListOf(Atom::First),
        },
        25 => Intrinsic {
            home: Home::List,
            name: "append",
            arity: 2,
            opcode: Opcode::ListAppend,
            params: Params::Two(Form::ListOf(Atom::First), Form::Plain(Atom::First)),
            ret: Form::ListOf(Atom::First),
        },
        26 => Intrinsic {
            home: Home::List,
            name: "is_empty",
            arity: 1,
            opcode: Opcode::ListIsEmpty,
            params: Params::One(Form::ListOf(Atom::First)),
            ret: Form::Plain(Atom::Bool),
        },
        27 => Intrinsic {
            home: Home::List,
            name: "first",
            arity: 1,
            opcode: Opcode::ListHead,
            params: Params::One(Form::ListOf(Atom::First)),
            ret: Form::OptionOf(Atom::First),
        },
        28 => Intrinsic {
            home: Home::List,
            name: "last",
            arity: 1,
            opcode: Opcode::ListLast,
            params: Params::One(Form::ListOf(Atom::First)),
            ret: Form::OptionOf(Atom::First),
        },
        29 => Intrinsic {
            home: Home::List,
            name: "reverse",
            arity: 1,
            opcode: Opcode::ListReverse,
            params: Params::One(Form::ListOf(Atom::First)),
            ret: Form::ListOf(Atom::First),
        },
        30 => Intrinsic {
            home: Home::List,
            name: "sort",
            arity: 1,
            opcode: Opcode::ListSort,
            params: Params::One(Form::ListOf(Atom::First)),
            ret: Form::ListOf(Atom::First),
        },
        31 => Intrinsic {
            home: Home::List,
            name: "slice",
            arity: 3,
            opcode: Opcode::ListSlice,
            params: Params::Three(Form::ListOf(Atom::First), Form::Plain(Atom::Number), Form::Plain(Atom::Number)),
            ret: Form::ListOf(Atom::First),
        },
        32 => Intrinsic {
            home: Home::Text,
            name: "length",
            arity: 1,
            opcode: Opcode::StringLength,
            params: Params::One(Form::Plain(Atom::Text)),
            ret: Form::Plain(Atom::Number),
        },
        33 => Intrinsic {
            home: Home::Text,
            name: "concat",
            arity: 2,
            opcode: Opcode::StringConcat,
            params: Params::Two(Form::Plain(Atom::Text), Form::Plain(Atom::Text)),
            ret: Form::Plain(Atom::Text),
        },
        34 => Intrinsic {
            home: Home::Text,
            name: "contains",
            arity: 2,
            opcode: Opcode::StringContains,
            params: Params::Two(Form::Plain(Atom::Text), Form::Plain(Atom::Text)),
            ret: Form::Plain(Atom::Bool),
        },
        35 => Intrinsic {
            home: Home::Text,
            name: "split",
            arity: 2,
            opcode: Opcode::StringSplit,
            params: Params::Two(Form::Plain(Atom::Text), Form::Plain(Atom::Text)),
            ret: Form::ListOf(Atom::Text),
        },
        36 => Intrinsic {
            home: Home::Text,
            name: "join",
            arity: 2,
            opcode: Opcode::StringJoin,
            params: Params::Two(Form::ListOf(Atom::Text), Form::Plain(Atom::Text)),
            ret: Form::Plain(Atom::Text),
        },
        37 => Intrinsic {
            home: Home::Text,
            name: "trim",
            arity: 1,
            opcode: Opcode::StringTrim,
            params: Params::One(Form::Plain(Atom::Text)),
            ret: Form::Plain(Atom::Text),
        },
        38 => Intrinsic {
            home: Home::Text,
            name: "slice",
            arity: 3,
            opcode: Opcode::StringSlice,
            params: Params::Three(Form::Plain(Atom::Text), Form::Plain(Atom::Number), Form::Plain(Atom::Number)),
            ret: Form::Plain(Atom::Text),
        },
        39 => Intrinsic {
            home: Home::Text,
            name: "chars",
            arity: 1,
            opcode: Opcode::StringChars,
            params: Params::One(Form::Plain(Atom::Text)),
            ret: Form::ListOf(Atom::Text),
        },
        40 => Intrinsic {
            home: Home::Text,
            name: "replace",
            arity: 3,
            opcode: Opcode::StringReplace,
            params: Params::Three(Form::Plain(Atom::Text), Form::Plain(Atom::Text), Form::Plain(Atom::Text)),
            ret: Form::Plain(Atom::Text),
        },
        41 => Intrinsic {
            home: Home::Text,
            name: "starts_with",
            arity: 2,
            opcode: Opcode::StringStartsWith,
            params: Params::Two(Form::Plain(Atom::Text), Form::Plain(Atom::Text)),
            ret: Form::Plain(Atom::Bool),
        },
        42 => Intrinsic {
            home: Home::Text,
            name: "ends_with",
            arity: 2,
            opcode: Opcode::StringEndsWith,
            params: Params::Two(Form::Plain(Atom::Text), Form::Plain(Atom::Text)),
            ret: Form::Plain(Atom::Bool),
        },
        43 => Intrinsic {
            home: Home::Text,
            name: "to_upper",
            arity: 1,
            opcode: Opcode::StringToUpper,
            params: Params::One(Form::Plain(Atom::Text)),
            ret: Form::Plain(Atom::Text),
        },
        44 => Intrinsic {
            home: Home::Text,
            name: "to_lower",
            arity: 1,
            opcode: Opcode::StringToLower,
            params: Params::One(Form::Plain(Atom::Text)),
            ret: Form::Plain(Atom::Text),
        },
        45 => Intrinsic {
            home: Home::Text,
            name: "index_of",
            arity: 2,
            opcode: Opcode::StringIndexOf,
            params: Params::Two(Form::Plain(Atom::Text), Form::Plain(Atom::Text)),
            ret: Form::OptionOf(Atom::Number),
        },
        46 => Intrinsic {
            home: Home::Text,
            name: "repeat",
            arity: 2,
            opcode: Opcode::StringRepeat,
            params: Params::Two(Form::Plain(Atom::Text), Form::Plain(Atom::Number)),
            ret: Form::Plain(Atom::Text),
        },
        47 => Intrinsic {
            home: Home::Text,
            name: "reverse",
            arity: 1,
            opcode: Opcode::StringReverse,
            params: Params::One(Form::Plain(Atom::Text)),
            ret: Form::Plain(Atom::Text),
        },
        48 => Intrinsic {
            home: Home::Convert,
            name: "to_string",
            arity: 1,
            opcode: Opcode::ToString,
            params: Params::One(Form::Plain(Atom::First)),
            ret: Form::Plain(Atom::Text),
        },
        49 => Intrinsic {
            home: Home::Convert,
            name: "parse_number",
            arity: 1,
            opcode: Opcode::ParseNumber,
            params: Params::One(Form::Plain(Atom::Text)),
            ret: Form::OptionOf(Atom::Number),
        },
        50 => Intrinsic {
            home: Home::Convert,
            name: "parse_bool",
            arity: 1,
            opcode: Opcode::ParseBool,
            params: Params::One(Form::Plain(Atom::Text)),
            ret: Form::OptionOf(Atom::Bool),
        },
        51 => Intrinsic {
            home: Home::Maps,
            name: "empty",
            arity: 0,
            opcode: Opcode::MakeEmptyMap,
            params: Params::Zero,
            ret: Form::MapOf(Atom::First, Atom::Second),
        },
        52 => Intrinsic {
            home: Home::Maps,
            name: "get",
            arity: 2,
            opcode: Opcode::MapGet,
            params: Params::Two(Form::MapOf(Atom::First, Atom::Second), Form::Plain(Atom::First)),
            ret: Form::OptionOf(Atom::Second),
        },
        53 => Intrinsic {
            home: Home::Maps,
            name: "insert",
            arity: 3,
            opcode: Opcode::MapInsert,
            params: Params::Three(Form::MapOf(Atom::First, Atom::Second), Form::Plain(Atom::First), Form::Plain(Atom::Second)),
            ret: Form::MapOf(Atom::First, Atom::Second),
        },
        54 => Intrinsic {
            home: Home::Maps,
            name: "remove",
            arity: 2,
            opcode: Opcode::MapRemove,
            params: Params::Two(Form::MapOf(Atom::First, Atom::Second), Form::Plain(Atom::First)),
            ret: Form::MapOf(Atom::First, Atom::Second),
        },
        55 => Intrinsic {
            home: Home::Maps,
            name: "contains",
            arity: 2,
            opcode: Opcode::MapContains,
            params: Params::Two(Form::MapOf(Atom::First, Atom::Second), Form::Plain(Atom::First)),
            ret: Form::Plain(Atom::Bool),
        },
        56 => Intrinsic {
            home: Home::Maps,
            name: "length",
            arity: 1,
            opcode: Opcode::MapLength,
            params: Params::One(Form::MapOf(Atom::First, Atom::Second)),
            ret: Form::Plain(Atom::Number),
        },
        57 => Intrinsic {
            home: Home::Maps,
            name: "keys",
            arity: 1,
            opcode: Opcode::MapKeys,
            params: Params::One(Form::MapOf(Atom::First, Atom::Second)),
            ret: Form::ListOf(Atom::First),
        },
        58 => Intrinsic {
            home: Home::Maps,
            name: "values",
            arity: 1,
            opcode: Opcode::MapValues,
            params: Params::One(Form::MapOf(Atom::First, Atom::Second)),
            ret: Form::ListOf(Atom::Second),
        },
        59 => Intrinsic {
            home: Home::Sets,
            name: "empty",
            arity: 0,
            opcode: Opcode::MakeEmptySet,
            params: Params::Zero,
            ret: Form::SetOf(Atom::First),
        },
        60 => Intrinsic {
            home: Home::Sets,
            name: "insert",
            arity: 2,
            opcode: Opcode::SetInsert,
            params: Params::Two(Form::SetOf(Atom::First), Form::Plain(Atom::First)),
            ret: Form::SetOf(Atom::First),
        },
        61 => Intrinsic {
            home: Home::Sets,
            name: "remove",
            arity: 2,
            opcode: Opcode::SetRemove,
            params: Params::Two(Form::SetOf(Atom::First), Form::Plain(Atom::First)),
            ret: Form::SetOf(Atom::First),
        },
        62 => Intrinsic {
            home: Home::Sets,
            name: "contains",
            arity: 2,
            opcode: Opcode::SetContains,
            params: Params::Two(Form::SetOf(Atom::First), Form::Plain(Atom::First)),
            ret: Form::Plain(Atom::Bool),
        },
        63 => Intrinsic {
            home: Home::Sets,
            name: "length",
            arity: 1,
            opcode: Opcode::SetLength,
            params: Params::One(Form::SetOf(Atom::First)),
            ret: Form::Plain(Atom::Number),
        },
        64 => Intrinsic {
            home: Home::Sets,
            name: "union",
            arity: 2,
            opcode: Opcode::SetUnion,
            params: Params::Two(Form::SetOf(Atom::First), Form::SetOf(Atom::First)),
            ret: Form::SetOf(Atom::First),
        },
        65 => Intrinsic {
            home: Home::Sets,
            name: "intersection",
            arity: 2,
            opcode: Opcode::SetIntersection,
            params: Params::Two(Form::SetOf(Atom::First), Form::SetOf(Atom::First)),
            ret: Form::SetOf(Atom::First),
        },
        66 => Intrinsic {
            home: Home::Sets,
            name: "difference",
            arity: 2,
            opcode: Opcode::SetDifference,
            params: Params::Two(Form::SetOf(Atom::First), Form::SetOf(Atom::First)),
            ret: Form::SetOf(Atom::First),
        },
        67 => Intrinsic {
            home: Home::Sets,
            name: "to_list",
            arity: 1,
            opcode: Opcode::SetToList,
            params: Params::One(Form::SetOf(Atom::First)),
            ret: Form::ListOf(Atom::First),
        },
        68 => Intrinsic {
            home: Home::Reflect,
            name: "tag",
            arity: 1,
            opcode: Opcode::EnumTag,
            params: Params::One(Form::Plain(Atom::First)),
            ret: Form::Plain(Atom::Number),
        },
        69 => Intrinsic {
            home: Home::Reflect,
            name: "payload",
            arity: 1,
            opcode: Opcode::EnumPayload,
            params: Params::One(Form::Plain(Atom::First)),
            ret: Form::Plain(Atom::Second),
        },
        70 => Intrinsic {
            home: Home::Protocol,
            name: "serialize_value",
            arity: 1,
            opcode: Opcode::SerializeValue,
            params: Params::One(Form::Plain(Atom::First)),
            ret: Form::Plain(Atom::Binary),
        },
        71 => Intrinsic {
            home: Home::Protocol,
            name: "deserialize_value",
            arity: 1,
            opcode: Opcode::DeserializeValue,
            params: Params::One(Form::Plain(Atom::Binary)),
            ret: Form::OptionOf(Atom::First),
        },
        72 => Intrinsic {
            home: Home::Protocol,
            name: "closure_hash",
            arity: 1,
            opcode: Opcode::ClosureHash,
            params: Params::One(Form::Plain(Atom::First)),
            ret: Form::Plain(Atom::Text),
        },
        73 => Intrinsic {
            home: Home::Protocol,
            name: "closure_captures",
            arity: 1,
            opcode: Opcode::ClosureCaptures,
            params: Params::One(Form::Plain(Atom::First)),
            ret: Form::Plain(Atom::Binary),
        },
        74 => Intrinsic {
            home: Home::Protocol,
            name: "handler_methods",
            arity: 1,
            opcode: Opcode::HandlerMethods,
            params: Params::One(Form::Plain(Atom::First)),
            ret: Form::ListOf(Atom::Text),
        },
        75 => Intrinsic {
            home: Home::Protocol,
            name: "hex_to_binary",
            arity: 1,
            opcode: Opcode::HexToBinary,
            params: Params::One(Form::Plain(Atom::Text)),
            ret: Form::OptionOf(Atom::Binary),
        },
        76 => Intrinsic {
            home: Home::Protocol,
            name: "binary_to_hex",
            arity: 1,
            opcode: Opcode::BinaryToHex,
            params: Params::One(Form::Plain(Atom::Binary)),
            ret: Form::Plain(Atom::Text),
        },
        77 => Intrinsic {
            home: Home::Binary,
            name: "from",
            arity: 1,
            opcode: Opcode::BinaryFrom,
            params: Params::One(Form::ListOf(Atom::Number)),
            ret: Form::Plain(Atom::Binary),
        },
        78 => Intrinsic {
            home: Home::Binary,
            name: "to_list",
            arity: 1,
            opcode: Opcode::BinaryToList,
            params: Params::One(Form::Plain(Atom::Binary)),
            ret: Form::ListOf(Atom::Number),
        },
        79 => Intrinsic {
            home: Home::Binary,
            name: "length",
            arity: 1,
            opcode: Opcode::BinaryLength,
            params: Params::One(Form::Plain(Atom::Binary)),
            ret: Form::Plain(Atom::Number),
        },
        80 => Intrinsic {
            home: Home::Binary,
            name: "get",
            arity: 2,
            opcode: Opcode::BinaryGet,
            params: Params::Two(Form::Plain(Atom::Binary), Form::Plain(Atom::Number)),
            ret: Form::OptionOf(Atom::Number),
        },
        81 => Intrinsic {
            home: Home::Binary,
            name: "slice",
            arity: 3,
            opcode: Opcode::BinarySlice,
            params: Params::Three(Form::Plain(Atom::Binary), Form::Plain(Atom::Number), Form::Plain(Atom::Number)),
            ret: Form::Plain(Atom::Binary),
        },
        _ => Intrinsic {
            home: Home::Binary,
            name: "concat",
            arity: 2,
            opcode: Opcode::BinaryConcat,
            params: Params::Two(Form::Plain(Atom::Binary), Form::Plain(Atom::Binary)),
            ret: Form::Plain(Atom::Binary),
        },
    }
}

/// The built-in function of a number.
pub fn intrinsic_at(i: usize) -> (r: Intrinsic)
    requires
        i < INTRINSIC_COUNT,
    ensures
        r == intrinsic(i as int),
{
    match i {
        0 => Intrinsic {
            home: Home::Number,
            name: "sqrt",
            arity: 1,
            opcode: Opcode::Sqrt,
            params: Params::One(Form::Plain(Atom::Number)),
            ret: Form::Plain(Atom::Number),
        },
        1 => Intrinsic {
            home: Home::Number,
            name: "abs",
            arity: 1,
            opcode: Opcode::Abs,
            params: Params::One(Form::Plain(Atom::Number)),
            ret: Form::Plain(Atom::Number),
        },
        2 => Intrinsic {
            home: Home::Number,
            name: "floor",
            arity: 1,
            opcode: Opcode::Floor,
            params: Params::One(Form::Plain(Atom::Number)),
            ret: Form::Plain(Atom::Number),
        },
        3 => Intrinsic {
            home: Home::Number,
            name: "ceil",
            arity: 1,
            opcode: Opcode::Ceil,
            params: Params::One(Form::Plain(Atom::Number)),
            ret: Form::Plain(Atom::Number),
        },
        4 => Intrinsic {
            home: Home::Number,
            name: "round",
            arity: 1,
            opcode: Opcode::Round,
            params: Params::One(Form::Plain(Atom::Number)),
            ret: Form::Plain(Atom::Number),
        },
        5 => Intrinsic {
            home: Home::Number,
            name: "trunc",
            arity: 1,
            opcode: Opcode::Trunc,
            params: Params::One(Form::Plain(Atom::Number)),
            ret: Form::Plain(Atom::Number),
        },
        6 => Intrinsic {
            home: Home::Number,
            name: "sin",
            arity: 1,
            opcode: Opcode::Sin,
            params: Params::One(Form::Plain(Atom::Number)),
            ret: Form::Plain(Atom::Number),
        },
        7 => Intrinsic {
            home: Home::Number,
            name: "cos",
            arity: 1,
            opcode: Opcode::Cos,
            params: Params::One(Form::Plain(Atom::Number)),
            ret: Form::Plain(Atom::Number),
        },
        8 => Intrinsic {
            home: Home::Number,
            name: "tan",
            arity: 1,
            opcode: Opcode::Tan,
            params: Params::One(Form::Plain(Atom::Number)),
            ret: Form::Plain(Atom::Number),
        },
        9 => Intrinsic {
            home: Home::Number,
            name: "ln",
            arity: 1,
            opcode: Opcode::Ln,
            params: Params::One(Form::Plain(Atom::Number)),
            ret: Form::Plain(Atom::Number),
        },
        10 => Intrinsic {
            home: Home::Number,
            name: "exp",
            arity: 1,
            opcode: Opcode::Exp,
            params: Params::One(Form::Plain(Atom::Number)),
            ret: Form::Plain(Atom::Number),
        },
        11 => Intrinsic {
            home: Home::Number,
            name: "pow",
            arity: 2,
            opcode: Opcode::Pow,
            params: Params::Two(Form::Plain(Atom::Number), Form::Plain(Atom::Number)),
            ret: Form::Plain(Atom::Number),
        },
        12 => Intrinsic {
            home: Home::Number,
            name: "min",
            arity: 2,
            opcode: Opcode::Min,
            params: Params::Two(Form::Plain(Atom::Number), Form::Plain(Atom::Number)),
            ret: Form::Plain(Atom::Number),
        },
        13 => Intrinsic {
            home: Home::Number,
            name: "max",
            arity: 2,
            opcode: Opcode::Max,
            params: Params::Two(Form::Plain(Atom::Number), Form::Plain(Atom::Number)),
            ret: Form::Plain(Atom::Number),
        },
        14 => Intrinsic {
            home: Home::Number,
            name: "asin",
            arity: 1,
            opcode: Opcode::Asin,
            params: Params::One(Form::Plain(Atom::Number)),
            ret: Form::Plain(Atom::Number),
        },
        15 => Intrinsic {
            home: Home::Number,
            name: "acos",
            arity: 1,
            opcode: Opcode::Acos,
            params: Params::One(Form::Plain(Atom::Number)),
            ret: Form::Plain(Atom::Number),
        },
        16 => Intrinsic {
            home: Home::Number,
            name: "atan",
            arity: 1,
            opcode: Opcode::Atan,
            params: Params::One(Form::Plain(Atom::Number)),
            ret: Form::Plain(Atom::Number),
        },
        17 => Intrinsic {
            home: Home::Number,
            name: "atan2",
            arity: 2,
            opcode: Opcode::Atan2,
            params: Params::Two(Form::Plain(Atom::Number), Form::Plain(Atom::Number)),
            ret: Form::Plain(Atom::Number),
        },
        18 => Intrinsic {
            home: Home::Number,
            name: "log10",
            arity: 1,
            opcode: Opcode::Log10,
            params: Params::One(Form::Plain(Atom::Number)),
            ret: Form::Plain(Atom::Number),
        },
        19 => Intrinsic {
            home: Home::Number,
            name: "log2",
            arity: 1,
            opcode: Opcode::Log2,
            params: Params::One(Form::Plain(Atom::Number)),
            ret: Form::Plain(Atom::Number),
        },
        20 => Intrinsic {
            home: Home::List,
            name: "length",
            arity: 1,
            opcode: Opcode::ListLength,
            params: Params::One(Form::ListOf(Atom::First)),
            ret: Form::Plain(Atom::Number),
        },
        21 => Intrinsic {
            home: Home::List,
            name: "get",
            arity: 2,
            opcode: Opcode::ListGet,
            params: Params::Two(Form::ListOf(Atom::First), Form::Plain(Atom::Number)),
            ret: Form::OptionOf(Atom::First),
        },
        22 => Intrinsic {
            home: Home::List,
            name: "head",
            arity: 1,
            opcode: Opcode::ListHead,
            params: Params::One(Form::ListOf(Atom::First)),
            ret: Form::OptionOf(Atom::First),
        },
        23 => Intrinsic {
            home: Home::List,
            name: "tail",
            arity: 1,
            opcode: Opcode::ListTail,
            params: Params::One(Form::ListOf(Atom::First)),
            ret: Form::ListOf(Atom::First),
        },
        24 => Intrinsic {
            home: Home::List,
            name: "concat",
            arity: 2,
            opcode: Opcode::ListConcat,
            params: Params::Two(Form::ListOf(Atom::First), Form::ListOf(Atom::First)),
            ret: Form::ListOf(Atom::First),
        },
        25 => Intrinsic {
            home: Home::List,
            name: "append",
            arity: 2,
            opcode: Opcode::ListAppend,
            params: Params::Two(Form::ListOf(Atom::First), Form::Plain(Atom::First)),
            ret: Form::ListOf(Atom::First),
        },
        26 => Intrinsic {
            home: Home::List,
            name: "is_empty",
            arity: 1,
            opcode: Opcode::ListIsEmpty,
            params: Params::One(Form::ListOf(Atom::First)),
            ret: Form::Plain(Atom::Bool),
        },
        27 => Intrinsic {
            home: Home::List,
            name: "first",
            arity: 1,
            opcode: Opcode::ListHead,
            params: Params::One(Form::ListOf(Atom::First)),
            ret: Form::OptionOf(Atom::First),
        },
        28 => Intrinsic {
            home: Home::List,
            name: "last",
            arity: 1,
            opcode: Opcode::ListLast,
            params: Params::One(Form::ListOf(Atom::First)),
            ret: Form::OptionOf(Atom::First),
        },
        29 => Intrinsic {
            home: Home::List,
            name: "reverse",
            arity: 1,
            opcode: Opcode::ListReverse,
            params: Params::One(Form::ListOf(Atom::First)),
            ret: Form::ListOf(Atom::First),
        },
        30 => Intrinsic {
            home: Home::List,
            name: "sort",
            arity: 1,
            opcode: Opcode::ListSort,
            params: Params::One(Form::ListOf(Atom::First)),
            ret: Form::ListOf(Atom::First),
        },
        31 => Intrinsic {
            home: Home::List,
            name: "slice",
            arity: 3,
            opcode: Opcode::ListSlice,
            params: Params::Three(Form::ListOf(Atom::First), Form::Plain(Atom::Number), Form::Plain(Atom::Number)),
            ret: Form::ListOf(Atom::First),
        },
        32 => Intrinsic {
            home: Home::Text,
            name: "length",
            arity: 1,
            opcode: Opcode::StringLength,
            params: Params::One(Form::Plain(Atom::Text)),
            ret: Form::Plain(Atom::Number),
        },
        33 => Intrinsic {
            home: Home::Text,
            name: "concat",
            arity: 2,
            opcode: Opcode::StringConcat,
            params: Params::Two(Form::Plain(Atom::Text), Form::Plain(Atom::Text)),
            ret: Form::Plain(Atom::Text),
        },
        34 => Intrinsic {
            home: Home::Text,
            name: "contains",
            arity: 2,
            opcode: Opcode::StringContains,
            params: Params::Two(Form::Plain(Atom::Text), Form::Plain(Atom::Text)),
            ret: Form::Plain(Atom::Bool),
        },
        35 => Intrinsic {
            home: Home::Text,
            name: "split",
            arity: 2,
            opcode: Opcode::StringSplit,
            params: Params::Two(Form::Plain(Atom::Text), Form::Plain(Atom::Text)),
            ret: Form::ListOf(Atom::Text),
        },
        36 => Intrinsic {
            home: Home::Text,
            name: "join",
            arity: 2,
            opcode: Opcode::StringJoin,
            params: Params::Two(Form::ListOf(Atom::Text), Form::Plain(Atom::Text)),
            ret: Form::Plain(Atom::Text),
        },
        37 => Intrinsic {
            home: Home::Text,
            name: "trim",
            arity: 1,
            opcode: Opcode::StringTrim,
            params: Params::One(Form::Plain(Atom::Text)),
            ret: Form::Plain(Atom::Text),
        },
        38 => Intrinsic {
            home: Home::Text,
            name: "slice",
            arity: 3,
            opcode: Opcode::StringSlice,
            params: Params::Three(Form::Plain(Atom::Text), Form::Plain(Atom::Number), Form::Plain(Atom::Number)),
            ret: Form::Plain(Atom::Text),
        },
        39 => Intrinsic {
            home: Home::Text,
            name: "chars",
            arity: 1,
            opcode: Opcode::StringChars,
            params: Params::One(Form::Plain(Atom::Text)),
            ret: Form::ListOf(Atom::Text),
        },
        40 => Intrinsic {
            home: Home::Text,
            name: "replace",
            arity: 3,
            opcode: Opcode::StringReplace,
            params: Params::Three(Form::Plain(Atom::Text), Form::Plain(Atom::Text), Form::Plain(Atom::Text)),
            ret: Form::Plain(Atom::Text),
        },
        41 => Intrinsic {
            home: Home::Text,
            name: "starts_with",
            arity: 2,
            opcode: Opcode::StringStartsWith,
            params: Params::Two(Form::Plain(Atom::Text), Form::Plain(Atom::Text)),
            ret: Form::Plain(Atom::Bool),
        },
        42 => Intrinsic {
            home: Home::Text,
            name: "ends_with",
            arity: 2,
            opcode: Opcode::StringEndsWith,
            params: Params::Two(Form::Plain(Atom::Text), Form::Plain(Atom::Text)),
            ret: Form::Plain(Atom::Bool),
        },
        43 => Intrinsic {
            home: Home::Text,
            name: "to_upper",
            arity: 1,
            opcode: Opcode::StringToUpper,
            params: Params::One(Form::Plain(Atom::Text)),
            ret: Form::Plain(Atom::Text),
        },
        44 => Intrinsic {
            home: Home::Text,
            name: "to_lower",
            arity: 1,
            opcode: Opcode::StringToLower,
            params: Params::One(Form::Plain(Atom::Text)),
            ret: Form::Plain(Atom::Text),
        },
        45 => Intrinsic {
            home: Home::Text,
            name: "index_of",
            arity: 2,
            opcode: Opcode::StringIndexOf,
            params: Params::Two(Form::Plain(Atom::Text), Form::Plain(Atom::Text)),
            ret: Form::OptionOf(Atom::Number),
        },
        46 => Intrinsic {
            home: Home::Text,
            name: "repeat",
            arity: 2,
            opcode: Opcode::StringRepeat,
            params: Params::Two(Form::Plain(Atom::Text), Form::Plain(Atom::Number)),
            ret: Form::Plain(Atom::Text),
        },
        47 => Intrinsic {
            home: Home::Text,
            name: "reverse",
            arity: 1,
            opcode: Opcode::StringReverse,
            params: Params::One(Form::Plain(Atom::Text)),
            ret: Form::Plain(Atom::Text),
        },
        48 => Intrinsic {
            home: Home::Convert,
            name: "to_string",
            arity: 1,
            opcode: Opcode::ToString,
            params: Params::One(Form::Plain(Atom::First)),
            ret: Form::Plain(Atom::Text),
        },
        49 => Intrinsic {
            home: Home::Convert,
            name: "parse_number",
            arity: 1,
            opcode: Opcode::ParseNumber,
            params: Params::One(Form::Plain(Atom::Text)),
            ret: Form::OptionOf(Atom::Number),
        },
        50 => Intrinsic {
            home: Home::Convert,
            name: "parse_bool",
            arity: 1,
            opcode: Opcode::ParseBool,
            params: Params::One(Form::Plain(Atom::Text)),
            ret: Form::OptionOf(Atom::Bool),
        },
        51 => Intrinsic {
            home: Home::Maps,
            name: "empty",
            arity: 0,
            opcode: Opcode::MakeEmptyMap,
            params: Params::Zero,
            ret: Form::MapOf(Atom::First, Atom::Second),
        },
        52 => Intrinsic {
            home: Home::Maps,
            name: "get",
            arity: 2,
            opcode: Opcode::MapGet,
            params: Params::Two(Form::MapOf(Atom::First, Atom::Second), Form::Plain(Atom::First)),
            ret: Form::OptionOf(Atom::Second),
        },
        53 => Intrinsic {
            home: Home::Maps,
            name: "insert",
            arity: 3,
            opcode: Opcode::MapInsert,
            params: Params::Three(Form::MapOf(Atom::First, Atom::Second), Form::Plain(Atom::First), Form::Plain(Atom::Second)),
            ret: Form::MapOf(Atom::First, Atom::Second),
        },
        54 => Intrinsic {
            home: Home::Maps,
            name: "remove",
            arity: 2,
            opcode: Opcode::MapRemove,
            params: Params::Two(Form::MapOf(Atom::First, Atom::Second), Form::Plain(Atom::First)),
            ret: Form::MapOf(Atom::First, Atom::Second),
        },
        55 => Intrinsic {
            home: Home::Maps,
            name: "contains",
            arity: 2,
            opcode: Opcode::MapContains,
            params: Params::Two(Form::MapOf(Atom::First, Atom::Second), Form::Plain(Atom::First)),
            ret: Form::Plain(Atom::Bool),
        },
        56 => Intrinsic {
            home: Home::Maps,
            name: "length",
            arity: 1,
            opcode: Opcode::MapLength,
            params: Params::One(Form::MapOf(Atom::First, Atom::Second)),
            ret: Form::Plain(Atom::Number),
        },
        57 => Intrinsic {
            home: Home::Maps,
            name: "keys",
            arity: 1,
            opcode: Opcode::MapKeys,
            params: Params::One(Form::MapOf(Atom::First, Atom::Second)),
            ret: Form::ListOf(Atom::First),
        },
        58 => Intrinsic {
            home: Home::Maps,
            name: "values",
            arity: 1,
            opcode: Opcode::MapValues,
            params: Params::One(Form::MapOf(Atom::First, Atom::Second)),
            ret: Form::ListOf(Atom::Second),
        },
        59 => Intrinsic {
            home: Home::Sets,
            name: "empty",
            arity: 0,
            opcode: Opcode::MakeEmptySet,
            params: Params::Zero,
            ret: Form::SetOf(Atom::First),
        },
        60 => Intrinsic {
            home: Home::Sets,
            name: "insert",
            arity: 2,
            opcode: Opcode::SetInsert,
            params: Params::Two(Form::SetOf(Atom::First), Form::Plain(Atom::First)),
            ret: Form::SetOf(Atom::First),
        },
        61 => Intrinsic {
            home: Home::Sets,
            name: "remove",
            arity: 2,
            opcode: Opcode::SetRemove,
            params: Params::Two(Form::SetOf(Atom::First), Form::Plain(Atom::First)),
            ret: Form::SetOf(Atom::First),
        },
        62 => Intrinsic {
            home: Home::Sets,
            name: "contains",
            arity: 2,
            opcode: Opcode::SetContains,
            params: Params::Two(Form::SetOf(Atom::First), Form::Plain(Atom::First)),
            ret: Form::Plain(Atom::Bool),
        },
        63 => Intrinsic {
            home: Home::Sets,
            name: "length",
            arity: 1,
            opcode: Opcode::SetLength,
            params: Params::One(Form::SetOf(Atom::First)),
            ret: Form::Plain(Atom::Number),
        },
        64 => Intrinsic {
            home: Home::Sets,
            name: "union",
            arity: 2,
            opcode: Opcode::SetUnion,
            params: Params::Two(Form::SetOf(Atom::First), Form::SetOf(Atom::First)),
            ret: Form::SetOf(Atom::First),
        },
        65 => Intrinsic {
            home: Home::Sets,
            name: "intersection",
            arity: 2,
            opcode: Opcode::SetIntersection,
            params: Params::Two(Form::SetOf(Atom::First), Form::SetOf(Atom::First)),
            ret: Form::SetOf(Atom::First),
        },
        66 => Intrinsic {
            home: Home::Sets,
            name: "difference",
            arity: 2,
            opcode: Opcode::SetDifference,
            params: Params::Two(Form::SetOf(Atom::First), Form::SetOf(Atom::First)),
            ret: Form::SetOf(Atom::First),
        },
        67 => Intrinsic {
            home: Home::Sets,
            name: "to_list",
            arity: 1,
            opcode: Opcode::SetToList,
            params: Params::One(Form::SetOf(Atom::First)),
            ret: Form::ListOf(Atom::First),
        },
        68 => Intrinsic {
            home: Home::Reflect,
            name: "tag",
            arity: 1,
            opcode: Opcode::EnumTag,
            params: Params::One(Form::Plain(Atom::First)),
            ret: Form::Plain(Atom::Number),
        },
        69 => Intrinsic {
            home: Home::Reflect,
            name: "payload",
            arity: 1,
            opcode: Opcode::EnumPayload,
            params: Params::One(Form::Plain(Atom::First)),
            ret: Form::Plain(Atom::Second),
        },
        70 => Intrinsic {
            home: Home::Protocol,
            name: "serialize_value",
            arity: 1,
            opcode: Opcode::SerializeValue,
            params: Params::One(Form::Plain(Atom::First)),
            ret: Form::Plain(Atom::Binary),
        },
        71 => Intrinsic {
            home: Home::Protocol,
            name: "deserialize_value",
            arity: 1,
            opcode: Opcode::DeserializeValue,
            params: Params::One(Form::Plain(Atom::Binary)),
            ret: Form::OptionOf(Atom::First),
        },
        72 => Intrinsic {
            home: Home::Protocol,
            name: "closure_hash",
            arity: 1,
            opcode: Opcode::ClosureHash,
            params: Params::One(Form::Plain(Atom::First)),
            ret: Form::Plain(Atom::Text),
        },
        73 => Intrinsic {
            home: Home::Protocol,
            name: "closure_captures",
            arity: 1,
            opcode: Opcode::ClosureCaptures,
            params: Params::One(Form::Plain(Atom::First)),
            ret: Form::Plain(Atom::Binary),
        },
        74 => Intrinsic {
            home: Home::Protocol,
            name: "handler_methods",
            arity: 1,
            opcode: Opcode::HandlerMethods,
            params: Params::One(Form::Plain(Atom::First)),
            ret: Form::ListOf(Atom::Text),
        },
        75 => Intrinsic {
            home: Home::Protocol,
            name: "hex_to_binary",
            arity: 1,
            opcode: Opcode::HexToBinary,
            params: Params::One(Form::Plain(Atom::Text)),
            ret: Form::OptionOf(Atom::Binary),
        },
        76 => Intrinsic {
            home: Home::Protocol,
            name: "binary_to_hex",
            arity: 1,
            opcode: Opcode::BinaryToHex,
            params: Params::One(Form::Plain(Atom::Binary)),
            ret: Form::Plain(Atom::Text),
        },
        77 => Intrinsic {
            home: Home::Binary,
            name: "from",
            arity: 1,
            opcode: Opcode::BinaryFrom,
            params: Params::One(Form::ListOf(Atom::Number)),
            ret: Form::Plain(Atom::Binary),
        },
        78 => Intrinsic {
            home: Home::Binary,
            name: "to_list",
            arity: 1,
            opcode: Opcode::BinaryToList,
            params: Params::One(Form::Plain(Atom::Binary)),
            ret: Form::ListOf(Atom::Number),
        },
        79 => Intrinsic {
            home: Home::Binary,
            name: "length",
            arity: 1,
            opcode: Opcode::BinaryLength,
            params: Params::One(Form::Plain(Atom::Binary)),
            ret: Form::Plain(Atom::Number),
        },
        80 => Intrinsic {
            home: Home::Binary,
            name: "get",
            arity: 2,
            opcode: Opcode::BinaryGet,
            params: Params::Two(Form::Plain(Atom::Binary), Form::Plain(Atom::Number)),
            ret: Form::OptionOf(Atom::Number),
        },
        81 => Intrinsic {
            home: Home::Binary,
            name: "slice",
            arity: 3,
            opcode: Opcode::BinarySlice,
            params: Params::Three(Form::Plain(Atom::Binary), Form::Plain(Atom::Number), Form::Plain(Atom::Number)),
            ret: Form::Plain(Atom::Binary),
        },
        _ => Intrinsic {
            home: Home::Binary,
            name: "concat",
            arity: 2,
            opcode: Opcode::BinaryConcat,
            params: Params::Two(Form::Plain(Atom::Binary), Form::Plain(Atom::Binary)),
            ret: Form::Plain(Atom::Binary),
        },
    }
}

// ── signatures ──────────────────────────────────────────────────────────────

/// The types of the parameters, in order.
pub open spec fn param_forms(p: Params) -> Seq<Form> {
    match p {
        Params::Zero => seq![],
        Params::One(a) => seq![a],
        Params::Two(a, b) => seq![a, b],
        Params::Three(a, b, c) => seq![a, b, c],
    }
}

/// Every function takes as many arguments as its signature has parameters.
pub proof fn arity_is_param_count(i: int)
    requires
        0 <= i < INTRINSIC_COUNT,
    ensures
        intrinsic(i).arity == param_forms(intrinsic(i).params).len(),
{
}

/// An atom as a type, with type variables numbered from `base`.
pub open spec fn atom_type(a: Atom, base: u32) -> TypeView {
    match a {
        Atom::Number => plain_type("Number"@),
        Atom::Text => plain_type("String"@),
        Atom::Bool => plain_type("Bool"@),
        Atom::Binary => plain_type("Binary"@),
        Atom::First => TypeView::Var(base),
        Atom::Second => TypeView::Var((base + 1) as u32),
    }
}

/// A form as a type, with type variables numbered from `base`.
pub open spec fn form_type(f: Form, base: u32) -> TypeView {
    match f {
        Form::Plain(a) => atom_type(a, base),
        Form::ListOf(a) => applied_type("List"@, atom_type(a, base)),
        Form::SetOf(a) => applied_type("Set"@, atom_type(a, base)),
        Form::OptionOf(a) => applied_type("Option"@, atom_type(a, base)),
        Form::MapOf(k, v) => TypeView::Named(
            "Map"@,
            seq![atom_type(k, base), atom_type(v, base)],
        ),
    }
}

/// A signature with its type variables filled in.
#[derive(Debug)]
pub struct Signature {
    /// The types of the parameters.
    pub params: Vec<Type>,
    /// The type of the result.
    pub ret: Type,
}

/// A supply of type variables for one signature: the same number gives the same
/// variable each time.
#[derive(Debug)]
pub struct SigVars {
    /// Where fresh variables come from.
    pub gen: TypeVarGen,
    /// The variables so far.
    pub vars: Vec<u32>,
}

impl SigVars {
    /// Whether the variables are numbered one after the other.
    pub open spec fn numbered(&self) -> bool {
        forall|k: int|
            0 <= k < self.vars@.len() ==> (#[trigger] self.vars@[k]) == self.gen.next
                - self.vars@.len() + k
    }

    /// A supply without variables.
    pub fn new(gen: TypeVarGen) -> (r: SigVars)
        ensures
            r.gen == gen,
            r.vars@ == Seq::<u32>::empty(),
            r.numbered(),
    {
        SigVars { gen, vars: Vec::new() }
    }

    /// The variable of a number, which is made where it is first asked for.
    pub fn var(&mut self, idx: usize) -> (r: Type)
        requires
            old(self).numbered(),
            old(self).vars@.len() <= old(self).gen.next,
            old(self).gen.next + idx < u32::MAX,
        ensures
            final(self).numbered(),
            final(self).vars@.len() == (if idx < old(self).vars@.len() {
                old(self).vars@.len()
            } else {
                (idx + 1) as nat
            }),
            final(self).gen.next - final(self).vars@.len() == old(self).gen.next - old(
                self,
            ).vars@.len(),
            r@ == TypeView::Var(
                (final(self).gen.next - final(self).vars@.len() + idx) as u32,
            ),
    {
        while self.vars.len() <= idx
            invariant
                self.numbered(),
                self.vars@.len() <= self.gen.next,
                self.gen.next - self.vars@.len() == old(self).gen.next - old(self).vars@.len(),
                old(self).gen.next + idx < u32::MAX,
                self.vars@.len() == old(self).vars@.len() || self.vars@.len() <= idx + 1,
                self.vars@.len() >= old(self).vars@.len(),
            decreases idx + 1 - self.vars@.len(),
        {
            let ghost was = *self;
            let n: u32 = self.gen.fresh_number();
            self.vars.push(n);
            assert forall|k: int| 0 <= k < self.vars@.len() implies (#[trigger] self.vars@[k])
                == self.gen.next - self.vars@.len() + k by {
                if k < was.vars@.len() {
                    assert(was.vars@[k] == was.gen.next - was.vars@.len() + k);
                }
            }
        }
        Type::Var(self.vars[idx])
    }
}

/// The number of type variables that an atom asks for.
pub open spec fn atom_vars(a: Atom) -> nat {
    match a {
        Atom::First => 1,
        Atom::Second => 2,
        _ => 0,
    }
}

/// The greater of two numbers.
pub open spec fn most(a: nat, b: nat) -> nat {
    if a < b {
        b
    } else {
        a
    }
}

/// The number of type variables that a form asks for.
pub open spec fn form_vars(f: Form) -> nat {
    match f {
        Form::Plain(a) => atom_vars(a),
        Form::ListOf(a) => atom_vars(a),
        Form::SetOf(a) => atom_vars(a),
        Form::OptionOf(a) => atom_vars(a),
        Form::MapOf(k, v) => most(atom_vars(k), atom_vars(v)),
    }
}

/// The number of type variables that a signature asks for.
pub open spec fn signature_vars(i: Intrinsic) -> nat {
    most(
        match i.params {
            Params::Zero => 0,
            Params::One(a) => form_vars(a),
            Params::Two(a, b) => most(form_vars(a), form_vars(b)),
            Params::Three(a, b, c) => most(most(form_vars(a), form_vars(b)), form_vars(c)),
        },
        form_vars(i.ret),
    )
}

/// Whether a supply has handed out `n` variables, numbered from `base`.
pub open spec fn handed_out(v: SigVars, base: u32, n: nat) -> bool {
    v.numbered() && v.vars@.len() == n && v.gen.next == base + n && n <= 2 && base <= u32::MAX - 4
}

/// An atom as a type.
fn atom_of(a: Atom, vars: &mut SigVars, base: Ghost<u32>, n: Ghost<nat>) -> (r: Type)
    requires
        handed_out(*old(vars), base@, n@),
    ensures
        r@ == atom_type(a, base@),
        handed_out(*final(vars), base@, most(n@, atom_vars(a))),
{
    match a {
        Atom::Number => Type::number(),
        Atom::Text => Type::string(),
        Atom::Bool => Type::bool(),
        Atom::Binary => Type::binary(),
        Atom::First => vars.var(0),
        Atom::Second => vars.var(1),
    }
}

/// A type of a name applied to one argument.
fn applied(name: &str, arg: Type) -> (r: Type)
    ensures
        r@ == applied_type(name@, arg@),
{
    let mut args: Vec<Type> = Vec::new();
    args.push(arg);
    assert(type_views(args@) =~= seq![arg@]);
    Type::named(name, args)
}

/// A form as a type.
fn form_of(f: Form, vars: &mut SigVars, base: Ghost<u32>, n: Ghost<nat>) -> (r: Type)
    requires
        handed_out(*old(vars), base@, n@),
    ensures
        r@ == form_type(f, base@),
        handed_out(*final(vars), base@, most(n@, form_vars(f))),
{
    match f {
        Form::Plain(a) => atom_of(a, vars, base, n),
        Form::ListOf(a) => applied("List", atom_of(a, vars, base, n)),
        Form::SetOf(a) => applied("Set", atom_of(a, vars, base, n)),
        Form::OptionOf(a) => Type::option(atom_of(a, vars, base, n)),
        Form::MapOf(k, v) => {
            let key = atom_of(k, vars, base, n);
            let value = atom_of(v, vars, base, Ghost(most(n@, atom_vars(k))));
            let mut args: Vec<Type> = Vec::new();
            args.push(key);
            args.push(value);
            assert(type_views(args@) =~= seq![key@, value@]);
            Type::named("Map", args)
        },
    }
}

/// The types of some forms.
pub open spec fn form_types(fs: Seq<Form>, base: u32) -> Seq<TypeView> {
    Seq::new(fs.len(), |i: int| form_type(fs[i], base))
}

impl Intrinsic {
    /// The signature with fresh type variables.
    pub fn signature(&self, gen: &mut TypeVarGen) -> (r: Signature)
        requires
            old(gen).next <= u32::MAX - 4,
        ensures
            type_views(r.params@) == form_types(param_forms(self.params), old(gen).next),
            r.ret@ == form_type(self.ret, old(gen).next),
            final(gen).next == old(gen).next + signature_vars(*self),
    {
        let ghost base = gen.next;
        let mut vars = SigVars::new(TypeVarGen { next: gen.next });
        let mut params: Vec<Type> = Vec::new();
        let ghost mut n: nat = 0;
        match self.params {
            Params::Zero => {},
            Params::One(a) => {
                params.push(form_of(a, &mut vars, Ghost(base), Ghost(n)));
                proof {
                    n = form_vars(a);
                }
            },
            Params::Two(a, b) => {
                params.push(form_of(a, &mut vars, Ghost(base), Ghost(n)));
                proof {
                    n = form_vars(a);
                }
                params.push(form_of(b, &mut vars, Ghost(base), Ghost(n)));
                proof {
                    n = most(n, form_vars(b));
                }
            },
            Params::Three(a, b, c) => {
                params.push(form_of(a, &mut vars, Ghost(base), Ghost(n)));
                proof {
                    n = form_vars(a);
                }
                params.push(form_of(b, &mut vars, Ghost(base), Ghost(n)));
                proof {
                    n = most(n, form_vars(b));
                }
                params.push(form_of(c, &mut vars, Ghost(base), Ghost(n)));
                proof {
                    n = most(n, form_vars(c));
                }
            },
        }
        let ret = form_of(self.ret, &mut vars, Ghost(base), Ghost(n));
        assert(type_views(params@) =~= form_types(param_forms(self.params), base));
        gen.next = vars.gen.next;
        Signature { params, ret }
    }
}

// ── finding ─────────────────────────────────────────────────────────────────

/// Whether a built-in function has a path and a name.
pub open spec fn is_at(i: int, path: Seq<Seq<char>>, name: Seq<char>) -> bool {
    home_path(intrinsic(i).home) == path && intrinsic(i).name@ == name
}

/// The number of the first built-in function of a path and a name, from a number
/// on.
pub open spec fn found_from(path: Seq<Seq<char>>, name: Seq<char>, i: int) -> Option<int>
    decreases INTRINSIC_COUNT - i,
{
    if i < 0 || i >= INTRINSIC_COUNT {
        None
    } else if is_at(i, path, name) {
        Some(i)
    } else {
        found_from(path, name, i + 1)
    }
}

/// The built-in function of a path and a name, whatever the number of
/// arguments.
pub fn find(path: &Vec<String>, name: &str) -> (r: Option<Intrinsic>)
    ensures
        match found_from(texts(path@), name@, 0) {
            Some(i) => r == Some(intrinsic(i)),
            None => r is None,
        },
{
    let mut i: usize = 0;
    while i < INTRINSIC_COUNT
        invariant
            i <= INTRINSIC_COUNT,
            found_from(texts(path@), name@, 0) == found_from(texts(path@), name@, i as int),
        decreases INTRINSIC_COUNT - i,
    {
        let entry = intrinsic_at(i);
        let home = entry.home.path();
        if texts_same(&home, path) && text_same(entry.name, name) {
            return Some(entry);
        }
        i = i + 1;
    }
    None
}

/// The names and numbers of arguments of the first `k` built-in functions that
/// live in a module.
pub open spec fn listed(path: Seq<Seq<char>>, k: int) -> Seq<(Seq<char>, u8)>
    decreases k,
{
    if k <= 0 {
        seq![]
    } else if home_path(intrinsic(k - 1).home) == path {
        listed(path, k - 1).push((intrinsic(k - 1).name@, intrinsic(k - 1).arity))
    } else {
        listed(path, k - 1)
    }
}

/// The number of the built-in function of a module that has a name, told from the
/// letters in which the names of the module differ.
spec fn place(h: Home, s: Seq<char>) -> int {
    match h {
        Home::Number => {
            if s.len() == 4 {
                if s[1] == 'q' {
                    0
                } else if s[1] == 'e' {
                    3
                } else if s[1] == 's' {
                    14
                } else if s[1] == 'c' {
                    15
                } else if s[1] == 't' {
                    16
                } else {
                    19
                }
            } else if s.len() == 3 {
                if s[0] == 'a' {
                    1
                } else if s[0] == 's' {
                    6
                } else if s[0] == 'c' {
                    7
                } else if s[0] == 't' {
                    8
                } else if s[0] == 'e' {
                    10
                } else if s[0] == 'p' {
                    11
                } else {
                    if s[1] == 'i' {
                        12
                    } else {
                        13
                    }
                }
            } else if s.len() == 5 {
                if s[0] == 'f' {
                    2
                } else if s[0] == 'r' {
                    4
                } else if s[0] == 't' {
                    5
                } else if s[0] == 'a' {
                    17
                } else {
                    18
                }
            } else {
                9
            }
        },
        Home::List => {
            if s.len() == 6 {
                if s[0] == 'l' {
                    20
                } else if s[0] == 'c' {
                    24
                } else {
                    25
                }
            } else if s.len() == 3 {
                21
            } else if s.len() == 4 {
                if s[0] == 'h' {
                    22
                } else if s[0] == 't' {
                    23
                } else if s[0] == 'l' {
                    28
                } else {
                    30
                }
            } else if s.len() == 8 {
                26
            } else if s.len() == 5 {
                if s[0] == 'f' {
                    27
                } else {
                    31
                }
            } else {
                29
            }
        },
        Home::Text => {
            if s.len() == 6 {
                if s[0] == 'l' {
                    32
                } else if s[0] == 'c' {
                    33
                } else {
                    46
                }
            } else if s.len() == 8 {
                if s[3] == 't' {
                    34
                } else if s[3] == 'u' {
                    43
                } else if s[3] == 'l' {
                    44
                } else {
                    45
                }
            } else if s.len() == 5 {
                if s[1] == 'p' {
                    35
                } else if s[1] == 'l' {
                    38
                } else {
                    39
                }
            } else if s.len() == 4 {
                if s[0] == 'j' {
                    36
                } else {
                    37
                }
            } else if s.len() == 7 {
                if s[2] == 'p' {
                    40
                } else {
                    47
                }
            } else if s.len() == 11 {
                41
            } else {
                42
            }
        },
        Home::Convert => {
            if s.len() == 9 {
                48
            } else if s.len() == 12 {
                49
            } else {
                50
            }
        },
        Home::Maps => {
            if s.len() == 5 {
                51
            } else if s.len() == 3 {
                52
            } else if s.len() == 6 {
                if s[0] == 'i' {
                    53
                } else if s[0] == 'r' {
                    54
                } else if s[0] == 'l' {
                    56
                } else {
                    58
                }
            } else if s.len() == 8 {
                55
            } else {
                57
            }
        },
        Home::Sets => {
            if s.len() == 5 {
                if s[0] == 'e' {
                    59
                } else {
                    64
                }
            } else if s.len() == 6 {
                if s[0] == 'i' {
                    60
                } else if s[0] == 'r' {
                    61
                } else {
                    63
                }
            } else if s.len() == 8 {
                62
            } else if s.len() == 12 {
                65
            } else if s.len() == 10 {
                66
            } else {
                67
            }
        },
        Home::Reflect => {
            if s.len() == 3 {
                68
            } else {
                69
            }
        },
        Home::Protocol => {
            if s.len() == 15 {
                if s[0] == 's' {
                    70
                } else {
                    74
                }
            } else if s.len() == 17 {
                71
            } else if s.len() == 12 {
                72
            } else if s.len() == 16 {
                73
            } else {
                if s[0] == 'h' {
                    75
                } else {
                    76
                }
            }
        },
        Home::Binary => {
            if s.len() == 4 {
                77
            } else if s.len() == 7 {
                78
            } else if s.len() == 6 {
                if s[0] == 'l' {
                    79
                } else {
                    82
                }
            } else if s.len() == 3 {
                80
            } else {
                81
            }
        },
    }
}

proof fn lemma_placed(i: int)
    requires
        0 <= i < INTRINSIC_COUNT,
    ensures
        place(intrinsic(i).home, intrinsic(i).name@) == i,
{
    reveal_strlit("abs");
    reveal_strlit("acos");
    reveal_strlit("append");
    reveal_strlit("asin");
    reveal_strlit("atan");
    reveal_strlit("atan2");
    reveal_strlit("binary_to_hex");
    reveal_strlit("ceil");
    reveal_strlit("chars");
    reveal_strlit("closure_captures");
    reveal_strlit("closure_hash");
    reveal_strlit("concat");
    reveal_strlit("contains");
    reveal_strlit("cos");
    reveal_strlit("deserialize_value");
    reveal_strlit("difference");
    reveal_strlit("empty");
    reveal_strlit("ends_with");
    reveal_strlit("exp");
    reveal_strlit("first");
    reveal_strlit("floor");
    reveal_strlit("from");
    reveal_strlit("get");
    reveal_strlit("handler_methods");
    reveal_strlit("head");
    reveal_strlit("hex_to_binary");
    reveal_strlit("index_of");
    reveal_strlit("insert");
    reveal_strlit("intersection");
    reveal_strlit("is_empty");
    reveal_strlit("join");
    reveal_strlit("keys");
    reveal_strlit("last");
    reveal_strlit("length");
    reveal_strlit("ln");
    reveal_strlit("log10");
    reveal_strlit("log2");
    reveal_strlit("max");
    reveal_strlit("min");
    reveal_strlit("parse_bool");
    reveal_strlit("parse_number");
    reveal_strlit("payload");
    reveal_strlit("pow");
    reveal_strlit("remove");
    reveal_strlit("repeat");
    reveal_strlit("replace");
    reveal_strlit("reverse");
    reveal_strlit("round");
    reveal_strlit("serialize_value");
    reveal_strlit("sin");
    reveal_strlit("slice");
    reveal_strlit("sort");
    reveal_strlit("split");
    reveal_strlit("sqrt");
    reveal_strlit("starts_with");
    reveal_strlit("tag");
    reveal_strlit("tail");
    reveal_strlit("tan");
    reveal_strlit("to_list");
    reveal_strlit("to_lower");
    reveal_strlit("to_string");
    reveal_strlit("to_upper");
    reveal_strlit("trim");
    reveal_strlit("trunc");
    reveal_strlit("union");
    reveal_strlit("values");
}

/// The module that has a path, told from the letters in which the paths differ.
spec fn home_at(path: Seq<Seq<char>>) -> Home {
    if path.len() == 2 {
        if path[1][0] == 'c' {
            Home::Convert
        } else if path[1][0] == 'r' {
            Home::Reflect
        } else {
            Home::Protocol
        }
    } else if path[1][0] == 'c' {
        if path[2][0] == 'L' {
            Home::List
        } else if path[2][0] == 'm' {
            Home::Maps
        } else {
            Home::Sets
        }
    } else if path[2][0] == 'N' {
        Home::Number
    } else if path[2][0] == 'S' {
        Home::Text
    } else {
        Home::Binary
    }
}

proof fn lemma_homes_differ(h: Home)
    ensures
        home_at(home_path(h)) == h,
{
    reveal_strlit("Binary");
    reveal_strlit("List");
    reveal_strlit("Number");
    reveal_strlit("String");
    reveal_strlit("collections");
    reveal_strlit("convert");
    reveal_strlit("core");
    reveal_strlit("map");
    reveal_strlit("primitives");
    reveal_strlit("protocol");
    reveal_strlit("reflect");
    reveal_strlit("set");
}

/// No two built-in functions have one path and one name.
pub proof fn names_are_unique(path: Seq<Seq<char>>, name: Seq<char>, i: int, j: int)
    requires
        0 <= i < INTRINSIC_COUNT,
        0 <= j < INTRINSIC_COUNT,
        is_at(i, path, name),
        is_at(j, path, name),
    ensures
        i == j,
{
    lemma_homes_differ(intrinsic(i).home);
    lemma_homes_differ(intrinsic(j).home);
    lemma_placed(i);
    lemma_placed(j);
}

proof fn lemma_found(path: Seq<Seq<char>>, name: Seq<char>, from: int)
    requires
        0 <= from <= INTRINSIC_COUNT,
    ensures
        match found_from(path, name, from) {
            Some(i) => from <= i < INTRINSIC_COUNT && is_at(i, path, name),
            None => forall|i: int| from <= i < INTRINSIC_COUNT ==> !#[trigger] is_at(i, path, name),
        },
    decreases INTRINSIC_COUNT - from,
{
    if from < INTRINSIC_COUNT && !is_at(from, path, name) {
        lemma_found(path, name, from + 1);
    }
}

proof fn lemma_listed(path: Seq<Seq<char>>, name: Seq<char>, arity: u8, k: int)
    requires
        0 <= k <= INTRINSIC_COUNT,
    ensures
        listed(path, k).contains((name, arity)) <==> exists|i: int|
            0 <= i < k && #[trigger] is_at(i, path, name) && intrinsic(i).arity == arity,
    decreases k,
{
    if k > 0 {
        let before = listed(path, k - 1);
        let now = listed(path, k);
        lemma_listed(path, name, arity, k - 1);
        if before.contains((name, arity)) {
            let m = before.index_of((name, arity));
            assert(now[m] == (name, arity));
        }
        if home_path(intrinsic(k - 1).home) == path {
            assert(now[now.len() - 1] == (intrinsic(k - 1).name@, intrinsic(k - 1).arity));
            if is_at(k - 1, path, name) && intrinsic(k - 1).arity == arity {
                assert(now.contains((name, arity)));
            }
        }
        if now.contains((name, arity)) {
            let m = now.index_of((name, arity));
            if m < before.len() {
                assert(before[m] == (name, arity));
            } else {
                assert(is_at(k - 1, path, name));
            }
        }
    }
}

/// What is listed for a module is what is found in it: a name stands in the list
/// with a number of arguments if and only if looking it up gives a function of
/// that many arguments.
pub proof fn what_is_listed_is_found(path: Seq<Seq<char>>, name: Seq<char>, arity: u8)
    ensures
        listed(path, INTRINSIC_COUNT as int).contains((name, arity)) <==> (found_from(
            path,
            name,
            0,
        ) matches Some(i) && intrinsic(i).arity == arity),
{
    lemma_listed(path, name, arity, INTRINSIC_COUNT as int);
    lemma_found(path, name, 0);
    if listed(path, INTRINSIC_COUNT as int).contains((name, arity)) {
        let i = choose|i: int|
            0 <= i < INTRINSIC_COUNT && #[trigger] is_at(i, path, name) && intrinsic(i).arity
                == arity;
        names_are_unique(path, name, i, found_from(path, name, 0)->0);
    }
}

/// What names with numbers of arguments say.
pub open spec fn arity_views(s: Seq<(&'static str, u8)>) -> Seq<(Seq<char>, u8)> {
    Seq::new(s.len(), |i: int| (s[i].0@, s[i].1))
}

/// The names and numbers of arguments of the built-in functions of a module.
pub fn get_intrinsics_for_module(path: &[&str]) -> (r: Vec<(&'static str, u8)>)
    ensures
        arity_views(r@) == listed(str_texts(path@), INTRINSIC_COUNT as int),
{
    let segments = own_texts_from(path, 0);
    let ghost want = str_texts(path@);
    assert(want.skip(0) =~= want);
    let mut r: Vec<(&'static str, u8)> = Vec::new();
    let mut i: usize = 0;
    assert(arity_views(r@) =~= seq![]);
    while i < INTRINSIC_COUNT
        invariant
            i <= INTRINSIC_COUNT,
            texts(segments@) == want,
            arity_views(r@) == listed(want, i as int),
        decreases INTRINSIC_COUNT - i,
    {
        let entry = intrinsic_at(i);
        let home = entry.home.path();
        let ghost was = arity_views(r@);
        if texts_same(&home, &segments) {
            r.push((entry.name, entry.arity));
            assert(arity_views(r@) =~= was.push((entry.name@, entry.arity)));
        }
        i = i + 1;
    }
    r
}

// ── compiling ───────────────────────────────────────────────────────────────

/// The segments before the own name of what a name means.
pub open spec fn target_segments(n: QualifiedName) -> Seq<Seq<char>> {
    match n.resolved {
        Some(f) => path_of(f@.module) + (if f@.ident.len() > 0 {
            f@.ident.drop_last()
        } else {
            seq![]
        }),
        None => texts(n.path@),
    }
}

/// The own name of what a name means.
pub open spec fn target_name(n: QualifiedName) -> Seq<char> {
    match n.resolved {
        Some(f) => if f@.ident.len() > 0 {
            f@.ident.last()
        } else {
            ""@
        },
        None => n.name@,
    }
}

/// The segments before the own name of what a name means.
fn target_segments_of(n: &QualifiedName) -> (r: Vec<String>)
    ensures
        texts(r@) == target_segments(*n),
{
    match &n.resolved {
        Some(f) => {
            let mut r = f.module.path_segments();
            let ghost start = texts(r@);
            let ghost ident = texts(f.ident@);
            let before: usize = if f.ident.len() > 0 {
                f.ident.len() - 1
            } else {
                0
            };
            let mut i: usize = 0;
            assert(start =~= start + ident.take(0));
            while i < before
                invariant
                    i <= before <= f.ident@.len(),
                    before < f.ident@.len() || before == 0,
                    ident == texts(f.ident@),
                    texts(r@) == start + ident.take(i as int),
                decreases before - i,
            {
                let ghost was = texts(r@);
                r.push(owned(f.ident[i].as_str()));
                assert(texts(r@) =~= was.push(ident[i as int]));
                i = i + 1;
                assert(texts(r@) =~= start + ident.take(i as int));
            }
            proof {
                if ident.len() > 0 {
                    assert(ident.take(i as int) =~= ident.drop_last());
                } else {
                    assert(start + ident.take(i as int) =~= start + seq![]);
                }
            }
            r
        },
        None => copy_texts(&n.path),
    }
}

/// The code of a call of a built-in function; `None` where the name means none of
/// that number of arguments.
pub open spec fn intrinsic_code(t: TablesView, n: QualifiedName, args: Seq<Expr>, g: Gen) -> Option<
    Code,
> {
    match found_from(target_segments(n), target_name(n), 0) {
        Some(i) => if intrinsic(i).arity == args.len() {
            Some(followed(exprs_code(t, args, g), Op::Plain(intrinsic(i).opcode)))
        } else {
            None
        },
        None => None,
    }
}

/// Compile a call of a built-in function, if the name means one; say whether it
/// does.
pub fn try_compile_intrinsic(
    t: &ModuleTables,
    fc: &mut FunctionCompiler,
    name: &QualifiedName,
    args: &Vec<Expr>,
    ctx: &mut ModuleContext,
) -> (r: Result<bool, CompileError>)
    ensures
        match intrinsic_code(t@, *name, args@, reached(*old(fc), *old(ctx))) {
            None => r matches Ok(false) && *final(fc) == *old(fc) && *final(ctx) == *old(ctx),
            Some(Ok((code, g))) => r matches Ok(true) && final(fc).ops() == old(fc).ops() + code
                && reached(*final(fc), *final(ctx)) == g,
            Some(Err(e)) => r matches Err(f) && f@ == e,
        },
{
    let path = target_segments_of(name);
    let own = match &name.resolved {
        Some(f) => owned(f.name()),
        None => owned(name.name.as_str()),
    };
    let entry = match find(&path, own.as_str()) {
        Some(i) => i,
        None => {
            return Ok(false);
        },
    };
    if entry.arity as usize != args.len() {
        return Ok(false);
    }
    let ghost start = fc.ops();
    let ghost g = reached(*fc, *ctx);
    compile_exprs(t, fc, args, ctx)?;
    fc.emit_plain(entry.opcode);
    proof {
        let code = exprs_code(t@, args@, g)->Ok_0.0;
        assert(fc.ops() =~= start + code.push(Op::Plain(entry.opcode)));
    }
    Ok(true)
}

// ── what the instructions compute ───────────────────────────────────────────

/// Whether a function of the core library is a built-in one: it lives in the same
/// module, takes as many arguments and has the same name. `first` of a list is
/// another name of `head`.
pub open spec fn is_function(f: CoreFunction, i: Intrinsic) -> bool {
    &&& f.module == home_path(i.home)
    &&& f.arity == i.arity
    &&& f.name == i.name@ || (i.home == Home::List && i.name@ == "first"@ && f.name == "head"@)
}

/// The instruction of a built-in function computes the function of that module and
/// that name.
pub proof fn instructions_compute_their_functions(i: int)
    requires
        0 <= i < INTRINSIC_COUNT,
    ensures
        computes(intrinsic(i).opcode) matches Some(f) && is_function(f, intrinsic(i)),
{
    let n = i as usize;
    assert(0 <= n < 83);
    if n < 20 {
    } else if n < 32 {
    } else if n < 48 {
    } else if n < 60 {
    } else {
    }
}

/// No two built-in functions share an instruction, but for `head` and `first`, which
/// are one function.
pub proof fn functions_have_instructions_of_their_own(i: int, j: int)
    requires
        0 <= i < INTRINSIC_COUNT,
        0 <= j < INTRINSIC_COUNT,
        i != j,
        intrinsic(i).opcode == intrinsic(j).opcode,
    ensures
        intrinsic(i).home == Home::List,
        intrinsic(j).home == Home::List,
        (intrinsic(i).name@ == "head"@ && intrinsic(j).name@ == "first"@) || (intrinsic(i).name@
            == "first"@ && intrinsic(j).name@ == "head"@),
{
    instructions_compute_their_functions(i);
    instructions_compute_their_functions(j);
    lemma_homes_differ(intrinsic(i).home);
    lemma_homes_differ(intrinsic(j).home);
    if intrinsic(i).name@ == intrinsic(j).name@ {
        names_are_unique(home_path(intrinsic(i).home), intrinsic(i).name@, i, j);
    }
}

/// A call of a built-in function is the code of its arguments and then one
/// instruction, which takes the values of the arguments and leaves what the function
/// of that module and that name gives for them. The payload of a value is taken from
/// the value itself.
pub proof fn calls_compute_the_named_function(
    t: TablesView,
    n: QualifiedName,
    args: Seq<Expr>,
    g: Gen,
    m: Host,
    s: Seq<Val>,
    vals: Seq<Val>,
    f: Frame,
)
    requires
        intrinsic_code(t, n, args, g) matches Some(Ok(_)),
        vals.len() == args.len(),
    ensures
        intrinsic_code(t, n, args, g) matches Some(Ok((code, _))) && exprs_code(
            t,
            args,
            g,
        ) matches Ok((before, _)) && code.len() == before.len() + 1 && code.drop_last() == before && {
            let module = target_segments(n);
            let name = target_name(n);
            let now = stack_effect(m, code.last(), s + vals, f);
            if code.last() == Op::Plain(Opcode::EnumPayload) {
                &&& name == "payload"@
                &&& vals[0] matches Val::Enum(e) ==> (e.payload.len() == 1 ==> now == Some(
                    s.push(e.payload[0]),
                ))
            } else {
                now == Some(s.push((m.library)(module, name, vals))) || (name == "first"@ && now
                    == Some(s.push((m.library)(module, "head"@, vals))))
            }
        },
{
    lemma_found(target_segments(n), target_name(n), 0);
    let i = found_from(target_segments(n), target_name(n), 0)->0;
    instructions_compute_their_functions(i);
    let o = intrinsic(i).opcode;
    let (before, h) = exprs_code(t, args, g)->Ok_0;
    assert(before.push(Op::Plain(o)).drop_last() =~= before);
    let all = s + vals;
    assert(all.take(all.len() - vals.len()) =~= s);
    assert(last(all, vals.len() as int) =~= vals);
    if o is EnumPayload {
        assert(all[all.len() - 1] == vals[0]);
    } else {
        lemma_library_instruction(i);
    }
}

proof fn lemma_library_instruction(i: int)
    requires
        0 <= i < INTRINSIC_COUNT,
        !(intrinsic(i).opcode is EnumPayload),
    ensures
        !takes_one(intrinsic(i).opcode),
        !takes_two(intrinsic(i).opcode),
        !(intrinsic(i).opcode is Dup),
        !(intrinsic(i).opcode is Pop),
{
    instructions_compute_their_functions(i);
}

// ── what the signatures are about ───────────────────────────────────────────

/// The type that a module of built-in functions is about, if it is about one.
pub open spec fn subject(h: Home) -> Option<Form> {
    match h {
        Home::Number => Some(Form::Plain(Atom::Number)),
        Home::List => Some(Form::ListOf(Atom::First)),
        Home::Text => Some(Form::Plain(Atom::Text)),
        Home::Maps => Some(Form::MapOf(Atom::First, Atom::Second)),
        Home::Sets => Some(Form::SetOf(Atom::First)),
        Home::Binary => Some(Form::Plain(Atom::Binary)),
        _ => None,
    }
}

/// Every function of a module that is about a type takes a value of that type, or
/// makes one; and the functions on numbers take nothing else and give numbers.
pub proof fn functions_are_about_their_module(i: int)
    requires
        0 <= i < INTRINSIC_COUNT,
    ensures
        subject(intrinsic(i).home) matches Some(f) ==> intrinsic(i).ret == f || exists|k: int|
            0 <= k < param_forms(intrinsic(i).params).len() && #[trigger] param_forms(
                intrinsic(i).params,
            )[k] == f,
        intrinsic(i).home == Home::Number ==> intrinsic(i).ret == Form::Plain(Atom::Number)
            && forall|k: int|
            0 <= k < param_forms(intrinsic(i).params).len() ==> #[trigger] param_forms(
                intrinsic(i).params,
            )[k] == Form::Plain(Atom::Number),
{
    let p = param_forms(intrinsic(i).params);
    if p.len() > 0 {
        assert(p[0] == p[0]);
    }
    if p.len() > 1 {
        assert(p[1] == p[1]);
    }
}

} // verus!
