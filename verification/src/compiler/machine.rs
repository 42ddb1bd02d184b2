//! The machine that code runs on.
//!
//! A machine has a stack of values, the locals of the running function, and the
//! values that it captured. What numbers do, which values are equal, and what
//! functions, closures, objects and the functions of the core library give is left
//! to the host: what holds of code here holds for every host.

use vstd::prelude::*;

use crate::ast::BinaryOp;
use crate::bytecode::{ConstantView, MethodView};
use crate::compiler::code::{Op, Opcode};
use crate::compiler::codegen::operator;

verus! {

// ── values ──────────────────────────────────────────────────────────────────

/// A value of a running program.
pub enum Val {
    /// The unit value.
    Unit,
    /// A boolean.
    Bool(bool),
    /// A number, by its IEEE-754 bits.
    Number(u64),
    /// Text.
    Text(Seq<char>),
    /// A tuple.
    Tuple(Seq<Val>),
    /// A record.
    Record(Map<Seq<char>, Val>),
    /// A list.
    List(Seq<Val>),
    /// A value of an enum.
    Enum(EnumVal),
    /// A function.
    Function(Seq<u8>),
    /// A function with captured values.
    Closure(Seq<u8>, Seq<Val>),
    /// A method of an ability with its arguments.
    Suspended(MethodView, Seq<Val>),
    /// A handler of an ability: its functions, and captured values.
    Handler(u64, Seq<(MethodView, Seq<u8>)>, Seq<Val>),
}

/// A value of an enum.
pub struct EnumVal {
    /// The enum.
    pub enum_name: Seq<char>,
    /// The position of the variant.
    pub tag: u16,
    /// The variant.
    pub variant: Seq<char>,
    /// The payload, as the only element; nothing for a variant without one.
    pub payload: Seq<Val>,
}

/// What numbers do.
pub struct Arithmetic {
    /// The sum.
    pub plus: spec_fn(u64, u64) -> u64,
    /// The difference.
    pub minus: spec_fn(u64, u64) -> u64,
    /// The product.
    pub times: spec_fn(u64, u64) -> u64,
    /// The quotient.
    pub over: spec_fn(u64, u64) -> u64,
    /// The remainder.
    pub modulo: spec_fn(u64, u64) -> u64,
    /// The number with the other sign.
    pub negated: spec_fn(u64) -> u64,
    /// Whether a number is less than another.
    pub less: spec_fn(u64, u64) -> bool,
    /// Whether a number is at most another.
    pub at_most: spec_fn(u64, u64) -> bool,
}

/// What code runs in.
pub struct Host {
    /// What numbers do.
    pub numbers: Arithmetic,
    /// Whether two values are equal.
    pub same: spec_fn(Val, Val) -> bool,
    /// What the function under a hash gives for arguments.
    pub call: spec_fn(Seq<u8>, Seq<Val>) -> Val,
    /// What a closure or a function that is a value gives for arguments.
    pub apply: spec_fn(Val, Seq<Val>) -> Val,
    /// The value of the object under a hash.
    pub object: spec_fn(Seq<u8>) -> Val,
    /// What a performed method of an ability gives.
    pub perform: spec_fn(MethodView, Seq<Val>) -> Val,
    /// What a function of the core library gives for arguments, by its module and its
    /// name.
    pub library: spec_fn(Seq<Seq<char>>, Seq<char>, Seq<Val>) -> Val,
}

// ── what instructions compute ───────────────────────────────────────────────

/// A function of the core library that has an instruction of its own.
pub struct CoreFunction {
    /// The module.
    pub module: Seq<Seq<char>>,
    /// The name.
    pub name: Seq<char>,
    /// The number of arguments.
    pub arity: nat,
}

/// The function of `core` on numbers of a name, which takes some arguments.
pub open spec fn of_numbers(name: Seq<char>, arity: nat) -> Option<CoreFunction> {
    Some(CoreFunction { module: seq!["core"@, "primitives"@, "Number"@], name, arity })
}

/// The function of `core` on lists of a name, which takes some arguments.
pub open spec fn of_lists(name: Seq<char>, arity: nat) -> Option<CoreFunction> {
    Some(CoreFunction { module: seq!["core"@, "collections"@, "List"@], name, arity })
}

/// The function of `core` on text of a name, which takes some arguments.
pub open spec fn of_text(name: Seq<char>, arity: nat) -> Option<CoreFunction> {
    Some(CoreFunction { module: seq!["core"@, "primitives"@, "String"@], name, arity })
}

/// The function of `core` on conversion of a name, which takes some arguments.
pub open spec fn of_conversions(name: Seq<char>, arity: nat) -> Option<CoreFunction> {
    Some(CoreFunction { module: seq!["core"@, "convert"@], name, arity })
}

/// The function of `core` on maps of a name, which takes some arguments.
pub open spec fn of_maps(name: Seq<char>, arity: nat) -> Option<CoreFunction> {
    Some(CoreFunction { module: seq!["core"@, "collections"@, "map"@], name, arity })
}

/// The function of `core` on sets of a name, which takes some arguments.
pub open spec fn of_sets(name: Seq<char>, arity: nat) -> Option<CoreFunction> {
    Some(CoreFunction { module: seq!["core"@, "collections"@, "set"@], name, arity })
}

/// The function of `core` on values at large of a name, which takes some arguments.
pub open spec fn of_reflection(name: Seq<char>, arity: nat) -> Option<CoreFunction> {
    Some(CoreFunction { module: seq!["core"@, "reflect"@], name, arity })
}

/// The function of `core` on protocols of a name, which takes some arguments.
pub open spec fn of_protocols(name: Seq<char>, arity: nat) -> Option<CoreFunction> {
    Some(CoreFunction { module: seq!["core"@, "protocol"@], name, arity })
}

/// The function of `core` on binary data of a name, which takes some arguments.
pub open spec fn of_binaries(name: Seq<char>, arity: nat) -> Option<CoreFunction> {
    Some(CoreFunction { module: seq!["core"@, "primitives"@, "Binary"@], name, arity })
}

/// The function of the core library that an instruction computes, if it is one.
pub open spec fn computes(o: Opcode) -> Option<CoreFunction> {
    match o {
        Opcode::Sqrt => of_numbers("sqrt"@, 1),
        Opcode::Abs => of_numbers("abs"@, 1),
        Opcode::Floor => of_numbers("floor"@, 1),
        Opcode::Ceil => of_numbers("ceil"@, 1),
        Opcode::Round => of_numbers("round"@, 1),
        Opcode::Trunc => of_numbers("trunc"@, 1),
        Opcode::Sin => of_numbers("sin"@, 1),
        Opcode::Cos => of_numbers("cos"@, 1),
        Opcode::Tan => of_numbers("tan"@, 1),
        Opcode::Ln => of_numbers("ln"@, 1),
        Opcode::Exp => of_numbers("exp"@, 1),
        Opcode::Pow => of_numbers("pow"@, 2),
        Opcode::Min => of_numbers("min"@, 2),
        Opcode::Max => of_numbers("max"@, 2),
        Opcode::Asin => of_numbers("asin"@, 1),
        Opcode::Acos => of_numbers("acos"@, 1),
        Opcode::Atan => of_numbers("atan"@, 1),
        Opcode::Atan2 => of_numbers("atan2"@, 2),
        Opcode::Log10 => of_numbers("log10"@, 1),
        Opcode::Log2 => of_numbers("log2"@, 1),
        Opcode::ListLength => of_lists("length"@, 1),
        Opcode::ListGet => of_lists("get"@, 2),
        Opcode::ListHead => of_lists("head"@, 1),
        Opcode::ListTail => of_lists("tail"@, 1),
        Opcode::ListConcat => of_lists("concat"@, 2),
        Opcode::ListAppend => of_lists("append"@, 2),
        Opcode::ListIsEmpty => of_lists("is_empty"@, 1),
        Opcode::ListLast => of_lists("last"@, 1),
        Opcode::ListReverse => of_lists("reverse"@, 1),
        Opcode::ListSort => of_lists("sort"@, 1),
        Opcode::ListSlice => of_lists("slice"@, 3),
        Opcode::StringLength => of_text("length"@, 1),
        Opcode::StringConcat => of_text("concat"@, 2),
        Opcode::StringContains => of_text("contains"@, 2),
        Opcode::StringSplit => of_text("split"@, 2),
        Opcode::StringJoin => of_text("join"@, 2),
        Opcode::StringTrim => of_text("trim"@, 1),
        Opcode::StringSlice => of_text("slice"@, 3),
        Opcode::StringChars => of_text("chars"@, 1),
        Opcode::StringReplace => of_text("replace"@, 3),
        Opcode::StringStartsWith => of_text("starts_with"@, 2),
        Opcode::StringEndsWith => of_text("ends_with"@, 2),
        Opcode::StringToUpper => of_text("to_upper"@, 1),
        Opcode::StringToLower => of_text("to_lower"@, 1),
        Opcode::StringIndexOf => of_text("index_of"@, 2),
        Opcode::StringRepeat => of_text("repeat"@, 2),
        Opcode::StringReverse => of_text("reverse"@, 1),
        Opcode::ToString => of_conversions("to_string"@, 1),
        Opcode::ParseNumber => of_conversions("parse_number"@, 1),
        Opcode::ParseBool => of_conversions("parse_bool"@, 1),
        Opcode::MakeEmptyMap => of_maps("empty"@, 0),
        Opcode::MapGet => of_maps("get"@, 2),
        Opcode::MapInsert => of_maps("insert"@, 3),
        Opcode::MapRemove => of_maps("remove"@, 2),
        Opcode::MapContains => of_maps("contains"@, 2),
        Opcode::MapLength => of_maps("length"@, 1),
        Opcode::MapKeys => of_maps("keys"@, 1),
        Opcode::MapValues => of_maps("values"@, 1),
        Opcode::MakeEmptySet => of_sets("empty"@, 0),
        Opcode::SetInsert => of_sets("insert"@, 2),
        Opcode::SetRemove => of_sets("remove"@, 2),
        Opcode::SetContains => of_sets("contains"@, 2),
        Opcode::SetLength => of_sets("length"@, 1),
        Opcode::SetUnion => of_sets("union"@, 2),
        Opcode::SetIntersection => of_sets("intersection"@, 2),
        Opcode::SetDifference => of_sets("difference"@, 2),
        Opcode::SetToList => of_sets("to_list"@, 1),
        Opcode::EnumTag => of_reflection("tag"@, 1),
        Opcode::EnumPayload => of_reflection("payload"@, 1),
        Opcode::SerializeValue => of_protocols("serialize_value"@, 1),
        Opcode::DeserializeValue => of_protocols("deserialize_value"@, 1),
        Opcode::ClosureHash => of_protocols("closure_hash"@, 1),
        Opcode::ClosureCaptures => of_protocols("closure_captures"@, 1),
        Opcode::HandlerMethods => of_protocols("handler_methods"@, 1),
        Opcode::HexToBinary => of_protocols("hex_to_binary"@, 1),
        Opcode::BinaryToHex => of_protocols("binary_to_hex"@, 1),
        Opcode::BinaryFrom => of_binaries("from"@, 1),
        Opcode::BinaryToList => of_binaries("to_list"@, 1),
        Opcode::BinaryLength => of_binaries("length"@, 1),
        Opcode::BinaryGet => of_binaries("get"@, 2),
        Opcode::BinarySlice => of_binaries("slice"@, 3),
        Opcode::BinaryConcat => of_binaries("concat"@, 2),
        _ => None,
    }
}

/// What an instruction computes of two values, if it is one that takes two.
pub open spec fn of_two(m: Host, o: Opcode, a: Val, b: Val) -> Option<Val> {
    match (o, a, b) {
        (Opcode::Add, Val::Number(x), Val::Number(y)) => Some(Val::Number((m.numbers.plus)(x, y))),
        (Opcode::Sub, Val::Number(x), Val::Number(y)) => Some(Val::Number((m.numbers.minus)(x, y))),
        (Opcode::Mul, Val::Number(x), Val::Number(y)) => Some(Val::Number((m.numbers.times)(x, y))),
        (Opcode::Div, Val::Number(x), Val::Number(y)) => Some(Val::Number((m.numbers.over)(x, y))),
        (Opcode::Mod, Val::Number(x), Val::Number(y)) => Some(
            Val::Number((m.numbers.modulo)(x, y)),
        ),
        (Opcode::Lt, Val::Number(x), Val::Number(y)) => Some(Val::Bool((m.numbers.less)(x, y))),
        (Opcode::Le, Val::Number(x), Val::Number(y)) => Some(Val::Bool((m.numbers.at_most)(x, y))),
        (Opcode::Gt, Val::Number(x), Val::Number(y)) => Some(Val::Bool((m.numbers.less)(y, x))),
        (Opcode::Ge, Val::Number(x), Val::Number(y)) => Some(Val::Bool((m.numbers.at_most)(y, x))),
        (Opcode::Eq, _, _) => Some(Val::Bool((m.same)(a, b))),
        (Opcode::Ne, _, _) => Some(Val::Bool(!(m.same)(a, b))),
        _ => None,
    }
}

/// What an instruction computes of one value, if it is one that takes one.
pub open spec fn of_one(m: Host, o: Opcode, a: Val) -> Option<Val> {
    match (o, a) {
        (Opcode::Neg, Val::Number(x)) => Some(Val::Number((m.numbers.negated)(x))),
        (Opcode::Not, Val::Bool(x)) => Some(Val::Bool(!x)),
        (Opcode::EnumPayload, Val::Enum(e)) => if e.payload.len() == 1 {
            Some(e.payload[0])
        } else {
            None
        },
        (Opcode::Perform, Val::Suspended(method, args)) => Some((m.perform)(method, args)),
        _ => None,
    }
}

/// Whether an instruction takes one value.
pub open spec fn takes_one(o: Opcode) -> bool {
    o is Neg || o is Not || o is EnumPayload || o is Perform
}

/// Whether an instruction takes two values.
pub open spec fn takes_two(o: Opcode) -> bool {
    o is Add || o is Sub || o is Mul || o is Div || o is Mod || o is Lt || o is Le || o is Gt
        || o is Ge || o is Eq || o is Ne
}

/// The value of a constant, if it is one that can be pushed.
pub open spec fn constant_val(c: ConstantView) -> Option<Val> {
    match c {
        ConstantView::Unit => Some(Val::Unit),
        ConstantView::Bool(b) => Some(Val::Bool(b)),
        ConstantView::Number(n) => Some(Val::Number(n)),
        ConstantView::String(s) => Some(Val::Text(s)),
        ConstantView::Function(h) => Some(Val::Function(h)),
        _ => None,
    }
}

/// The fields of a record from names and values that take turns.
pub open spec fn record_of(s: Seq<Val>) -> Option<Map<Seq<char>, Val>>
    decreases s.len(),
{
    if s.len() == 0 {
        Some(Map::empty())
    } else if s.len() == 1 {
        None
    } else {
        match (record_of(s.take(s.len() - 2)), s[s.len() - 2]) {
            (Some(before), Val::Text(name)) => Some(before.insert(name, s[s.len() - 1])),
            _ => None,
        }
    }
}

// ── running ─────────────────────────────────────────────────────────────────

/// What a running function holds besides the stack.
pub struct Frame {
    /// The locals, by their slots.
    pub locals: Map<u16, Val>,
    /// The captured values.
    pub captures: Seq<Val>,
}

/// The last values of a stack.
pub open spec fn last(s: Seq<Val>, n: int) -> Seq<Val> {
    s.skip(s.len() - n)
}

/// A stack without its last values, and one more.
pub open spec fn replaced(s: Seq<Val>, n: int, v: Val) -> Seq<Val> {
    s.take(s.len() - n).push(v)
}

/// A stack with a value in place of its last ones; nothing where there is no value,
/// or too few were there.
pub open spec fn with_result(s: Seq<Val>, n: int, v: Option<Val>) -> Option<Seq<Val>> {
    match v {
        Some(v) => if s.len() >= n {
            Some(replaced(s, n, v))
        } else {
            None
        },
        None => None,
    }
}

/// What an instruction without operands makes of a stack.
pub open spec fn plain_effect(m: Host, o: Opcode, s: Seq<Val>) -> Option<Seq<Val>> {
    let n = s.len() as int;
    if o is Dup {
        if n > 0 {
            Some(s.push(s[n - 1]))
        } else {
            None
        }
    } else if o is Pop {
        if n > 0 {
            Some(s.drop_last())
        } else {
            None
        }
    } else if takes_one(o) {
        with_result(s, 1, of_one(m, o, s[n - 1]))
    } else if takes_two(o) {
        with_result(s, 2, of_two(m, o, s[n - 2], s[n - 1]))
    } else {
        match computes(o) {
            Some(f) => with_result(
                s,
                f.arity as int,
                Some((m.library)(f.module, f.name, last(s, f.arity as int))),
            ),
            None => None,
        }
    }
}

/// What an instruction makes of a stack, where the function goes on behind it.
pub open spec fn stack_effect(m: Host, op: Op, s: Seq<Val>, f: Frame) -> Option<Seq<Val>> {
    let n = s.len() as int;
    match op {
        Op::Mark(_) => Some(s),
        Op::Plain(o) => plain_effect(m, o, s),
        Op::Push(c) => with_result(s, 0, constant_val(c)),
        Op::LoadLocal(i) => if f.locals.contains_key(i) {
            Some(s.push(f.locals[i]))
        } else {
            None
        },
        Op::StoreLocal(_) => if n > 0 {
            Some(s.drop_last())
        } else {
            None
        },
        Op::LoadCapture(i) => if i < f.captures.len() {
            Some(s.push(f.captures[i as int]))
        } else {
            None
        },
        Op::LoadObject(h) => Some(s.push((m.object)(h))),
        Op::Call(h, k) => with_result(s, k as int, Some((m.call)(h, last(s, k as int)))),
        Op::CallClosure(k) => with_result(
            s,
            k + 1,
            Some((m.apply)(s[n - k - 1], last(s, k as int))),
        ),
        Op::MakeClosure(h, k) => with_result(
            s,
            k as int,
            Some(Val::Closure(h, last(s, k as int))),
        ),
        Op::MakeTuple(k) => with_result(s, k as int, Some(Val::Tuple(last(s, k as int)))),
        Op::TupleGet(i) => match s[n - 1] {
            Val::Tuple(vs) => with_result(
                s,
                1,
                if i < vs.len() {
                    Some(vs[i as int])
                } else {
                    None
                },
            ),
            _ => None,
        },
        Op::MakeRecord(k) => with_result(
            s,
            2 * k,
            match record_of(last(s, 2 * k)) {
                Some(r) => Some(Val::Record(r)),
                None => None,
            },
        ),
        Op::RecordGet(name) => match s[n - 1] {
            Val::Record(r) => with_result(
                s,
                1,
                if r.contains_key(name) {
                    Some(r[name])
                } else {
                    None
                },
            ),
            _ => None,
        },
        Op::MakeList(k) => with_result(s, k as int, Some(Val::List(last(s, k as int)))),
        Op::MakeEnum { enum_name, tag, variant, has_payload } => {
            let k = if has_payload {
                1int
            } else {
                0
            };
            with_result(
                s,
                k,
                Some(Val::Enum(EnumVal { enum_name, tag, variant, payload: last(s, k) })),
            )
        },
        Op::EnumIs(tag) => match s[n - 1] {
            Val::Enum(e) => if n > 0 {
                Some(s.push(Val::Bool(e.tag == tag)))
            } else {
                None
            },
            _ => None,
        },
        Op::Suspend(method, k) => with_result(
            s,
            k as int,
            Some(Val::Suspended(method, last(s, k as int))),
        ),
        Op::MakeHandler(id, ms, k) => with_result(
            s,
            k as int,
            Some(Val::Handler(id, ms, last(s, k as int))),
        ),
        Op::GetAbilityArg(i) => match s[n - 1] {
            Val::Suspended(_, args) => with_result(
                s,
                1,
                if i < args.len() {
                    Some(args[i as int])
                } else {
                    None
                },
            ),
            _ => None,
        },
        _ => None,
    }
}

/// What an instruction makes of the locals.
pub open spec fn frame_effect(op: Op, s: Seq<Val>, f: Frame) -> Frame {
    match op {
        Op::StoreLocal(i) => Frame { locals: f.locals.insert(i, s[s.len() - 1]), ..f },
        _ => f,
    }
}

/// How code ends.
pub enum Outcome {
    /// The function gave a value.
    Returned(Val),
    /// The end of the code was reached.
    Ended(Seq<Val>, Frame),
    /// An instruction could not be carried out.
    Stuck,
}

/// What running code from an instruction on comes to. A jump skips instructions
/// behind it, so every run ends.
#[verifier::opaque]
pub open spec fn run(m: Host, code: Seq<Op>, pc: int, s: Seq<Val>, f: Frame) -> Outcome
    decreases code.len() - pc,
{
    let n = s.len() as int;
    if pc < 0 || pc > code.len() {
        Outcome::Stuck
    } else if pc == code.len() {
        Outcome::Ended(s, f)
    } else {
        match code[pc] {
            Op::Jump(k) => if k < 0 || pc + 1 + k > code.len() {
                Outcome::Stuck
            } else {
                run(m, code, pc + 1 + k, s, f)
            },
            Op::JumpIf(k) => if n == 0 || k < 0 || pc + 1 + k > code.len() {
                Outcome::Stuck
            } else {
                match s[n - 1] {
                    Val::Bool(b) => if b {
                        run(m, code, pc + 1 + k, s.drop_last(), f)
                    } else {
                        run(m, code, pc + 1, s.drop_last(), f)
                    },
                    _ => Outcome::Stuck,
                }
            },
            Op::JumpIfNot(k) => if n == 0 || k < 0 || pc + 1 + k > code.len() {
                Outcome::Stuck
            } else {
                match s[n - 1] {
                    Val::Bool(b) => if b {
                        run(m, code, pc + 1, s.drop_last(), f)
                    } else {
                        run(m, code, pc + 1 + k, s.drop_last(), f)
                    },
                    _ => Outcome::Stuck,
                }
            },
            Op::TailCall(h, k) => if n < k {
                Outcome::Stuck
            } else {
                Outcome::Returned((m.call)(h, last(s, k as int)))
            },
            Op::TailCallClosure(k) => if n < k + 1 {
                Outcome::Stuck
            } else {
                Outcome::Returned((m.apply)(s[n - k - 1], last(s, k as int)))
            },
            Op::Plain(Opcode::Return) => if n == 0 {
                Outcome::Stuck
            } else {
                Outcome::Returned(s[n - 1])
            },
            op => match stack_effect(m, op, s, f) {
                Some(t) => run(m, code, pc + 1, t, frame_effect(op, s, f)),
                None => Outcome::Stuck,
            },
        }
    }
}

/// What a function gives for arguments, which are its first locals.
pub open spec fn run_function(m: Host, code: Seq<Op>, args: Seq<Val>, captures: Seq<Val>) -> Outcome {
    run(m, code, 0, seq![], Frame { locals: first_locals(args), captures })
}

/// Arguments as the first locals.
pub open spec fn first_locals(args: Seq<Val>) -> Map<u16, Val> {
    Map::new(|i: u16| i < args.len(), |i: u16| args[i as int])
}

// ── operators ───────────────────────────────────────────────────────────────

/// The value that the language gives a built-in operator on two values.
pub open spec fn operator_value(m: Host, op: BinaryOp, a: Val, b: Val) -> Option<Val> {
    match op {
        BinaryOp::Eq => Some(Val::Bool((m.same)(a, b))),
        BinaryOp::Ne => Some(Val::Bool(!(m.same)(a, b))),
        _ => match (a, b) {
            (Val::Number(x), Val::Number(y)) => match op {
                BinaryOp::Add => Some(Val::Number((m.numbers.plus)(x, y))),
                BinaryOp::Sub => Some(Val::Number((m.numbers.minus)(x, y))),
                BinaryOp::Mul => Some(Val::Number((m.numbers.times)(x, y))),
                BinaryOp::Div => Some(Val::Number((m.numbers.over)(x, y))),
                BinaryOp::Mod => Some(Val::Number((m.numbers.modulo)(x, y))),
                BinaryOp::Lt => Some(Val::Bool((m.numbers.less)(x, y))),
                BinaryOp::Le => Some(Val::Bool((m.numbers.at_most)(x, y))),
                BinaryOp::Gt => Some(Val::Bool((m.numbers.less)(y, x))),
                BinaryOp::Ge => Some(Val::Bool((m.numbers.at_most)(y, x))),
                _ => None,
            },
            _ => None,
        },
    }
}

/// The instruction of a built-in operator leaves the operator's value of the two
/// values on top of the stack, whatever numbers do and whatever is equal.
pub proof fn operators_compute_their_value(m: Host, op: BinaryOp, s: Seq<Val>, a: Val, b: Val, f: Frame)
    requires
        !(op is And) && !(op is Or),
        operator_value(m, op, a, b) is Some,
    ensures
        stack_effect(m, Op::Plain(operator(op)), s.push(a).push(b), f) == Some(
            s.push(operator_value(m, op, a, b)->0),
        ),
{
    let t = s.push(a).push(b);
    assert(t.take(t.len() - 2) =~= s);
}

/// Different built-in operators have different instructions.
pub proof fn operators_have_instructions_of_their_own(a: BinaryOp, b: BinaryOp)
    requires
        !(a is And) && !(a is Or),
        !(b is And) && !(b is Or),
        operator(a) == operator(b),
    ensures
        a == b,
{
}

} // verus!
