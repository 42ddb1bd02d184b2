//! Instructions, and how they become bytes.
//!
//! Code is first a list of instructions in which a jump skips a number of
//! instructions, and a constant stands in the instruction that uses it. Lowering
//! numbers the constants, collects what the code depends on, and turns jumps
//! into distances in bytes.

use vstd::prelude::*;

use crate::ast::Span;
use crate::bytecode::{
    constant_target, constant_views, digest_views, AbilityMethodRef, Constant, ConstantView,
    MethodView, SourceMapping,
};
use crate::compiler::error::{CompileError, CompileErrorKind, ErrorView, KindView};
use crate::digest::Digest;
use crate::text::owned;
use crate::wire::{u32_bytes, Wire};

verus! {

broadcast use {vstd::string::group_string_axioms, vstd::array::group_array_axioms};

/// An instruction without operands.
#[derive(Debug, Clone, Copy, PartialEq, Eq, Structural)]
pub enum Opcode {
    Dup,
    Pop,
    Return,
    Add,
    Sub,
    Mul,
    Div,
    Mod,
    Eq,
    Ne,
    Lt,
    Le,
    Gt,
    Ge,
    Neg,
    Not,
    Perform,
    Resume,
    TailResume,
    HandleWithValue,
    Unhandle,
    EnumPayload,
    Sqrt,
    Abs,
    Floor,
    Ceil,
    Round,
    Trunc,
    Sin,
    Cos,
    Tan,
    Ln,
    Exp,
    Pow,
    Min,
    Max,
    Asin,
    Acos,
    Atan,
    Atan2,
    Log10,
    Log2,
    ListLength,
    ListGet,
    ListHead,
    ListTail,
    ListConcat,
    ListAppend,
    ListIsEmpty,
    ListLast,
    ListReverse,
    ListSort,
    ListSlice,
    StringLength,
    StringConcat,
    StringContains,
    StringSplit,
    StringJoin,
    StringTrim,
    StringSlice,
    StringChars,
    StringReplace,
    StringStartsWith,
    StringEndsWith,
    StringToUpper,
    StringToLower,
    StringIndexOf,
    StringRepeat,
    StringReverse,
    ToString,
    ParseNumber,
    ParseBool,
    MakeEmptyMap,
    MapGet,
    MapInsert,
    MapRemove,
    MapContains,
    MapLength,
    MapKeys,
    MapValues,
    MakeEmptySet,
    SetInsert,
    SetRemove,
    SetContains,
    SetLength,
    SetUnion,
    SetIntersection,
    SetDifference,
    SetToList,
    EnumTag,
    SerializeValue,
    DeserializeValue,
    ClosureHash,
    ClosureCaptures,
    HandlerMethods,
    HexToBinary,
    BinaryToHex,
    BinaryFrom,
    BinaryToList,
    BinaryLength,
    BinaryGet,
    BinarySlice,
    BinaryConcat,
}

impl Opcode {
    /// The byte of the instruction.
    pub open spec fn byte(self) -> u8 {
        match self {
            Opcode::Dup => 32,
            Opcode::Pop => 33,
            Opcode::Return => 34,
            Opcode::Add => 35,
            Opcode::Sub => 36,
            Opcode::Mul => 37,
            Opcode::Div => 38,
            Opcode::Mod => 39,
            Opcode::Eq => 40,
            Opcode::Ne => 41,
            Opcode::Lt => 42,
            Opcode::Le => 43,
            Opcode::Gt => 44,
            Opcode::Ge => 45,
            Opcode::Neg => 46,
            Opcode::Not => 47,
            Opcode::Perform => 48,
            Opcode::Resume => 49,
            Opcode::TailResume => 50,
            Opcode::HandleWithValue => 51,
            Opcode::Unhandle => 52,
            Opcode::EnumPayload => 53,
            Opcode::Sqrt => 54,
            Opcode::Abs => 55,
            Opcode::Floor => 56,
            Opcode::Ceil => 57,
            Opcode::Round => 58,
            Opcode::Trunc => 59,
            Opcode::Sin => 60,
            Opcode::Cos => 61,
            Opcode::Tan => 62,
            Opcode::Ln => 63,
            Opcode::Exp => 64,
            Opcode::Pow => 65,
            Opcode::Min => 66,
            Opcode::Max => 67,
            Opcode::Asin => 68,
            Opcode::Acos => 69,
            Opcode::Atan => 70,
            Opcode::Atan2 => 71,
            Opcode::Log10 => 72,
            Opcode::Log2 => 73,
            Opcode::ListLength => 74,
            Opcode::ListGet => 75,
            Opcode::ListHead => 76,
            Opcode::ListTail => 77,
            Opcode::ListConcat => 78,
            Opcode::ListAppend => 79,
            Opcode::ListIsEmpty => 80,
            Opcode::ListLast => 81,
            Opcode::ListReverse => 82,
            Opcode::ListSort => 83,
            Opcode::ListSlice => 84,
            Opcode::StringLength => 85,
            Opcode::StringConcat => 86,
            Opcode::StringContains => 87,
            Opcode::StringSplit => 88,
            Opcode::StringJoin => 89,
            Opcode::StringTrim => 90,
            Opcode::StringSlice => 91,
            Opcode::StringChars => 92,
            Opcode::StringReplace => 93,
            Opcode::StringStartsWith => 94,
            Opcode::StringEndsWith => 95,
            Opcode::StringToUpper => 96,
            Opcode::StringToLower => 97,
            Opcode::StringIndexOf => 98,
            Opcode::StringRepeat => 99,
            Opcode::StringReverse => 100,
            Opcode::ToString => 101,
            Opcode::ParseNumber => 102,
            Opcode::ParseBool => 103,
            Opcode::MakeEmptyMap => 104,
            Opcode::MapGet => 105,
            Opcode::MapInsert => 106,
            Opcode::MapRemove => 107,
            Opcode::MapContains => 108,
            Opcode::MapLength => 109,
            Opcode::MapKeys => 110,
            Opcode::MapValues => 111,
            Opcode::MakeEmptySet => 112,
            Opcode::SetInsert => 113,
            Opcode::SetRemove => 114,
            Opcode::SetContains => 115,
            Opcode::SetLength => 116,
            Opcode::SetUnion => 117,
            Opcode::SetIntersection => 118,
            Opcode::SetDifference => 119,
            Opcode::SetToList => 120,
            Opcode::EnumTag => 121,
            Opcode::SerializeValue => 122,
            Opcode::DeserializeValue => 123,
            Opcode::ClosureHash => 124,
            Opcode::ClosureCaptures => 125,
            Opcode::HandlerMethods => 126,
            Opcode::HexToBinary => 127,
            Opcode::BinaryToHex => 128,
            Opcode::BinaryFrom => 129,
            Opcode::BinaryToList => 130,
            Opcode::BinaryLength => 131,
            Opcode::BinaryGet => 132,
            Opcode::BinarySlice => 133,
            Opcode::BinaryConcat => 134,
        }
    }

    /// The byte of the instruction.
    pub fn as_byte(&self) -> (r: u8)
        ensures
            r == self.byte(),
    {
        match self {
            Opcode::Dup => 32,
            Opcode::Pop => 33,
            Opcode::Return => 34,
            Opcode::Add => 35,
            Opcode::Sub => 36,
            Opcode::Mul => 37,
            Opcode::Div => 38,
            Opcode::Mod => 39,
            Opcode::Eq => 40,
            Opcode::Ne => 41,
            Opcode::Lt => 42,
            Opcode::Le => 43,
            Opcode::Gt => 44,
            Opcode::Ge => 45,
            Opcode::Neg => 46,
            Opcode::Not => 47,
            Opcode::Perform => 48,
            Opcode::Resume => 49,
            Opcode::TailResume => 50,
            Opcode::HandleWithValue => 51,
            Opcode::Unhandle => 52,
            Opcode::EnumPayload => 53,
            Opcode::Sqrt => 54,
            Opcode::Abs => 55,
            Opcode::Floor => 56,
            Opcode::Ceil => 57,
            Opcode::Round => 58,
            Opcode::Trunc => 59,
            Opcode::Sin => 60,
            Opcode::Cos => 61,
            Opcode::Tan => 62,
            Opcode::Ln => 63,
            Opcode::Exp => 64,
            Opcode::Pow => 65,
            Opcode::Min => 66,
            Opcode::Max => 67,
            Opcode::Asin => 68,
            Opcode::Acos => 69,
            Opcode::Atan => 70,
            Opcode::Atan2 => 71,
            Opcode::Log10 => 72,
            Opcode::Log2 => 73,
            Opcode::ListLength => 74,
            Opcode::ListGet => 75,
            Opcode::ListHead => 76,
            Opcode::ListTail => 77,
            Opcode::ListConcat => 78,
            Opcode::ListAppend => 79,
            Opcode::ListIsEmpty => 80,
            Opcode::ListLast => 81,
            Opcode::ListReverse => 82,
            Opcode::ListSort => 83,
            Opcode::ListSlice => 84,
            Opcode::StringLength => 85,
            Opcode::StringConcat => 86,
            Opcode::StringContains => 87,
            Opcode::StringSplit => 88,
            Opcode::StringJoin => 89,
            Opcode::StringTrim => 90,
            Opcode::StringSlice => 91,
            Opcode::StringChars => 92,
            Opcode::StringReplace => 93,
            Opcode::StringStartsWith => 94,
            Opcode::StringEndsWith => 95,
            Opcode::StringToUpper => 96,
            Opcode::StringToLower => 97,
            Opcode::StringIndexOf => 98,
            Opcode::StringRepeat => 99,
            Opcode::StringReverse => 100,
            Opcode::ToString => 101,
            Opcode::ParseNumber => 102,
            Opcode::ParseBool => 103,
            Opcode::MakeEmptyMap => 104,
            Opcode::MapGet => 105,
            Opcode::MapInsert => 106,
            Opcode::MapRemove => 107,
            Opcode::MapContains => 108,
            Opcode::MapLength => 109,
            Opcode::MapKeys => 110,
            Opcode::MapValues => 111,
            Opcode::MakeEmptySet => 112,
            Opcode::SetInsert => 113,
            Opcode::SetRemove => 114,
            Opcode::SetContains => 115,
            Opcode::SetLength => 116,
            Opcode::SetUnion => 117,
            Opcode::SetIntersection => 118,
            Opcode::SetDifference => 119,
            Opcode::SetToList => 120,
            Opcode::EnumTag => 121,
            Opcode::SerializeValue => 122,
            Opcode::DeserializeValue => 123,
            Opcode::ClosureHash => 124,
            Opcode::ClosureCaptures => 125,
            Opcode::HandlerMethods => 126,
            Opcode::HexToBinary => 127,
            Opcode::BinaryToHex => 128,
            Opcode::BinaryFrom => 129,
            Opcode::BinaryToList => 130,
            Opcode::BinaryLength => 131,
            Opcode::BinaryGet => 132,
            Opcode::BinarySlice => 133,
            Opcode::BinaryConcat => 134,
        }
    }
}

/// An instruction.
#[derive(Debug)]
pub enum Instr {
    /// No instruction: what follows was compiled from this part of the source.
    Mark(Span),
    /// An instruction without operands.
    Plain(Opcode),
    /// Push a constant.
    Push(Constant),
    /// Push a local.
    LoadLocal(u16),
    /// Take a value into a local.
    StoreLocal(u16),
    /// Push a captured value.
    LoadCapture(u16),
    /// Push the value of an object.
    LoadObject(Digest),
    /// Call a function.
    Call(Digest, u8),
    /// Call a function in place of the caller.
    TailCall(Digest, u8),
    /// Call a closure.
    CallClosure(u8),
    /// Call a closure in place of the caller.
    TailCallClosure(u8),
    /// Make a closure of a function and captured values.
    MakeClosure(Digest, u8),
    /// Make a tuple.
    MakeTuple(u8),
    /// Take an element of a tuple.
    TupleGet(u8),
    /// Make a record.
    MakeRecord(u8),
    /// Take a field of a record.
    RecordGet(String),
    /// Make a list.
    MakeList(u16),
    /// Make a value of an enum.
    MakeEnum { enum_name: String, tag: u16, variant: String, has_payload: bool },
    /// Test the variant of a value.
    EnumIs(u16),
    /// Skip instructions.
    Jump(usize),
    /// Skip instructions if a value is true.
    JumpIf(usize),
    /// Skip instructions if a value is false.
    JumpIfNot(usize),
    /// Package the arguments of a method of an ability.
    Suspend(AbilityMethodRef, u8),
    /// Make a handler of functions and captured values.
    MakeHandler(u64, Vec<(AbilityMethodRef, Digest)>, u8),
    /// Take an argument of a packaged method.
    GetAbilityArg(u8),
}

/// What an [`Instr`] says.
pub enum Op {
    Mark(Span),
    Plain(Opcode),
    Push(ConstantView),
    LoadLocal(u16),
    StoreLocal(u16),
    LoadCapture(u16),
    LoadObject(Seq<u8>),
    Call(Seq<u8>, u8),
    TailCall(Seq<u8>, u8),
    CallClosure(u8),
    TailCallClosure(u8),
    MakeClosure(Seq<u8>, u8),
    MakeTuple(u8),
    TupleGet(u8),
    MakeRecord(u8),
    RecordGet(Seq<char>),
    MakeList(u16),
    MakeEnum { enum_name: Seq<char>, tag: u16, variant: Seq<char>, has_payload: bool },
    EnumIs(u16),
    Jump(int),
    JumpIf(int),
    JumpIfNot(int),
    Suspend(MethodView, u8),
    MakeHandler(u64, Seq<(MethodView, Seq<u8>)>, u8),
    GetAbilityArg(u8),
}

/// What the methods of a handler say.
pub open spec fn handler_views(s: Seq<(AbilityMethodRef, Digest)>) -> Seq<(MethodView, Seq<u8>)> {
    Seq::new(s.len(), |i: int| (s[i].0@, s[i].1@))
}

impl View for Instr {
    type V = Op;

    open spec fn view(&self) -> Op {
        match *self {
            Instr::Mark(s) => Op::Mark(s),
            Instr::Plain(o) => Op::Plain(o),
            Instr::Push(c) => Op::Push(c@),
            Instr::LoadLocal(n) => Op::LoadLocal(n),
            Instr::StoreLocal(n) => Op::StoreLocal(n),
            Instr::LoadCapture(n) => Op::LoadCapture(n),
            Instr::LoadObject(h) => Op::LoadObject(h@),
            Instr::Call(h, n) => Op::Call(h@, n),
            Instr::TailCall(h, n) => Op::TailCall(h@, n),
            Instr::CallClosure(n) => Op::CallClosure(n),
            Instr::TailCallClosure(n) => Op::TailCallClosure(n),
            Instr::MakeClosure(h, n) => Op::MakeClosure(h@, n),
            Instr::MakeTuple(n) => Op::MakeTuple(n),
            Instr::TupleGet(n) => Op::TupleGet(n),
            Instr::MakeRecord(n) => Op::MakeRecord(n),
            Instr::RecordGet(s) => Op::RecordGet(s@),
            Instr::MakeList(n) => Op::MakeList(n),
            Instr::MakeEnum { enum_name, tag, variant, has_payload } => Op::MakeEnum {
                enum_name: enum_name@,
                tag,
                variant: variant@,
                has_payload,
            },
            Instr::EnumIs(n) => Op::EnumIs(n),
            Instr::Jump(n) => Op::Jump(n as int),
            Instr::JumpIf(n) => Op::JumpIf(n as int),
            Instr::JumpIfNot(n) => Op::JumpIfNot(n as int),
            Instr::Suspend(m, n) => Op::Suspend(m@, n),
            Instr::MakeHandler(a, ms, n) => Op::MakeHandler(a, handler_views(ms@), n),
            Instr::GetAbilityArg(n) => Op::GetAbilityArg(n),
        }
    }
}

/// What some instructions say.
pub open spec fn ops(code: Seq<Instr>) -> Seq<Op> {
    Seq::new(code.len(), |i: int| code[i]@)
}

// ── lowering ────────────────────────────────────────────────────────────────

/// The constants of the methods of a handler.
pub open spec fn handler_constants(ms: Seq<(MethodView, Seq<u8>)>) -> Seq<ConstantView>
    decreases ms.len(),
{
    if ms.len() == 0 {
        seq![]
    } else {
        handler_constants(ms.drop_last()) + seq![
            ConstantView::Method(ms.last().0),
            ConstantView::Function(ms.last().1),
        ]
    }
}

/// The constants that an instruction uses.
pub open spec fn op_constants(op: Op) -> Seq<ConstantView> {
    match op {
        Op::Push(c) => seq![c],
        Op::LoadObject(h) => seq![ConstantView::Object(h)],
        Op::Call(h, _) => seq![ConstantView::Function(h)],
        Op::TailCall(h, _) => seq![ConstantView::Function(h)],
        Op::MakeClosure(h, _) => seq![ConstantView::Function(h)],
        Op::RecordGet(s) => seq![ConstantView::String(s)],
        Op::MakeEnum { enum_name, tag, variant, has_payload } => seq![
            ConstantView::String(enum_name),
            ConstantView::String(variant),
        ],
        Op::Suspend(m, _) => seq![ConstantView::Method(m)],
        Op::MakeHandler(_, ms, _) => handler_constants(ms),
        _ => seq![],
    }
}

/// The functions of the methods of a handler.
pub open spec fn handler_targets(ms: Seq<(MethodView, Seq<u8>)>) -> Seq<Seq<u8>> {
    Seq::new(ms.len(), |i: int| ms[i].1)
}

/// What an instruction depends on.
pub open spec fn op_targets(op: Op) -> Seq<Seq<u8>> {
    match op {
        Op::LoadObject(h) => seq![h],
        Op::Call(h, _) => seq![h],
        Op::TailCall(h, _) => seq![h],
        Op::MakeClosure(h, _) => seq![h],
        Op::MakeHandler(_, ms, _) => handler_targets(ms),
        _ => seq![],
    }
}

/// The bytes of a `u16`, the low one first.
pub open spec fn u16_bytes(n: u16) -> Seq<u8> {
    <u16 as Wire>::bytes(n)
}

/// The number of the constant at a distance from another.
pub open spec fn const_index(base: int, k: int) -> Seq<u8> {
    u16_bytes((base + k) as u16)
}

/// The bytes that name the constants of `n` methods.
pub open spec fn handler_bytes(base: int, n: int) -> Seq<u8>
    decreases n,
{
    if n <= 0 {
        seq![]
    } else {
        handler_bytes(base, n - 1) + (const_index(base, 2 * (n - 1)) + const_index(
            base,
            2 * (n - 1) + 1,
        ))
    }
}

/// The bytes of an instruction whose first constant has the number `base`. A
/// jump has the distance in bytes that it skips.
pub open spec fn op_bytes(op: Op, base: int, distance: int) -> Seq<u8> {
    match op {
        Op::Mark(_) => seq![],
        Op::Plain(o) => seq![o.byte()],
        Op::Push(_) => seq![1u8] + const_index(base, 0),
        Op::LoadLocal(n) => seq![2u8] + u16_bytes(n),
        Op::StoreLocal(n) => seq![3u8] + u16_bytes(n),
        Op::LoadCapture(n) => seq![4u8] + u16_bytes(n),
        Op::LoadObject(_) => seq![5u8] + const_index(base, 0),
        Op::Call(_, n) => seq![6u8] + const_index(base, 0) + seq![n],
        Op::TailCall(_, n) => seq![7u8] + const_index(base, 0) + seq![n],
        Op::CallClosure(n) => seq![8u8, n],
        Op::TailCallClosure(n) => seq![9u8, n],
        Op::MakeClosure(_, n) => seq![10u8] + const_index(base, 0) + seq![n],
        Op::MakeTuple(n) => seq![11u8, n],
        Op::TupleGet(n) => seq![12u8, n],
        Op::MakeRecord(n) => seq![13u8, n],
        Op::RecordGet(_) => seq![14u8] + const_index(base, 0),
        Op::MakeList(n) => seq![15u8] + u16_bytes(n),
        Op::MakeEnum { enum_name, tag, variant, has_payload } => seq![16u8] + const_index(base, 0)
            + const_index(base, 1) + u16_bytes(tag) + seq![
            if has_payload {
                1u8
            } else {
                0u8
            },
        ],
        Op::EnumIs(n) => seq![17u8] + u16_bytes(n),
        Op::Jump(_) => seq![18u8] + u32_bytes(distance as u32),
        Op::JumpIf(_) => seq![19u8] + u32_bytes(distance as u32),
        Op::JumpIfNot(_) => seq![20u8] + u32_bytes(distance as u32),
        Op::Suspend(_, n) => seq![21u8] + const_index(base, 0) + seq![n],
        Op::MakeHandler(a, ms, n) => seq![22u8] + <u64 as Wire>::bytes(a) + u16_bytes(
            ms.len() as u16,
        ) + handler_bytes(base, ms.len() as int) + seq![n],
        Op::GetAbilityArg(n) => seq![23u8, n],
    }
}

/// The number of bytes of the first `k` instructions.
pub open spec fn size_upto(code: Seq<Op>, k: int) -> int
    decreases k,
{
    if k <= 0 {
        0
    } else {
        size_upto(code, k - 1) + op_bytes(code[k - 1], 0, 0).len()
    }
}

/// The number of instructions that an instruction skips.
pub open spec fn op_skip(op: Op) -> int {
    match op {
        Op::Jump(n) => n,
        Op::JumpIf(n) => n,
        Op::JumpIfNot(n) => n,
        _ => 0,
    }
}

/// The distance in bytes that an instruction skips: up to the instruction that
/// follows the skipped ones, or to the end.
pub open spec fn jump_distance(code: Seq<Op>, i: int) -> int {
    let to = i + 1 + op_skip(code[i]);
    size_upto(
        code,
        if to > code.len() {
            code.len() as int
        } else {
            to
        },
    ) - size_upto(code, i + 1)
}

/// A list of hashes with those added that it lacks.
pub open spec fn with_targets(deps: Seq<Seq<u8>>, more: Seq<Seq<u8>>) -> Seq<Seq<u8>>
    decreases more.len(),
{
    if more.len() == 0 {
        deps
    } else {
        let before = with_targets(deps, more.drop_last());
        if before.contains(more.last()) {
            before
        } else {
            before.push(more.last())
        }
    }
}

/// Code as bytes, with its constants and what it depends on.
pub struct Lowered {
    /// The bytes.
    pub bytecode: Seq<u8>,
    /// The constants.
    pub constants: Seq<ConstantView>,
    /// What the code depends on.
    pub dependencies: Seq<Seq<u8>>,
    /// Where the code comes from.
    pub source_map: Seq<SourceMapping>,
}

/// The first `k` instructions of some code as bytes.
pub open spec fn lowered(code: Seq<Op>, k: int) -> Lowered
    decreases k,
{
    if k <= 0 {
        Lowered { bytecode: seq![], constants: seq![], dependencies: seq![], source_map: seq![] }
    } else {
        let before = lowered(code, k - 1);
        let op = code[k - 1];
        Lowered {
            bytecode: before.bytecode + op_bytes(
                op,
                before.constants.len() as int,
                jump_distance(code, k - 1),
            ),
            constants: before.constants + op_constants(op),
            dependencies: with_targets(before.dependencies, op_targets(op)),
            source_map: match op {
                Op::Mark(span) => before.source_map.push(
                    SourceMapping {
                        bytecode_offset: before.bytecode.len() as usize,
                        source_start: span.start as usize,
                        source_end: span.end as usize,
                        line: 0,
                        column: 0,
                    },
                ),
                _ => before.source_map,
            },
        }
    }
}

/// Whether constants refer to a hash, as a function or as the object of a
/// constant.
pub open spec fn referred(cs: Seq<ConstantView>, h: Seq<u8>) -> bool {
    exists|c: int| 0 <= c < cs.len() && constant_target(#[trigger] cs[c]) == Some(h)
}

/// Whether constants refer to every one of some hashes.
pub open spec fn all_referred(cs: Seq<ConstantView>, hs: Seq<Seq<u8>>) -> bool {
    forall|k: int| 0 <= k < hs.len() ==> referred(cs, #[trigger] hs[k])
}

proof fn lemma_referred_on(a: Seq<ConstantView>, b: Seq<ConstantView>, h: Seq<u8>)
    ensures
        referred(a, h) ==> referred(a + b, h),
        referred(b, h) ==> referred(a + b, h),
{
    if referred(a, h) {
        let c = choose|c: int| 0 <= c < a.len() && constant_target(#[trigger] a[c]) == Some(h);
        assert((a + b)[c] == a[c]);
    }
    if referred(b, h) {
        let c = choose|c: int| 0 <= c < b.len() && constant_target(#[trigger] b[c]) == Some(h);
        assert((a + b)[a.len() + c] == b[c]);
    }
}

proof fn lemma_handler_referred(ms: Seq<(MethodView, Seq<u8>)>)
    ensures
        all_referred(handler_constants(ms), handler_targets(ms)),
    decreases ms.len(),
{
    if ms.len() > 0 {
        let rest = ms.drop_last();
        lemma_handler_referred(rest);
        let own = seq![ConstantView::Method(ms.last().0), ConstantView::Function(ms.last().1)];
        assert forall|k: int| 0 <= k < ms.len() implies referred(
            handler_constants(ms),
            #[trigger] handler_targets(ms)[k],
        ) by {
            let h = handler_targets(ms)[k];
            lemma_referred_on(handler_constants(rest), own, h);
            if k < rest.len() {
                assert(handler_targets(rest)[k] == h);
            } else {
                assert(constant_target(own[1]) == Some(h));
            }
        }
    }
}

/// What an instruction depends on, its constants refer to.
proof fn lemma_op_referred(op: Op)
    ensures
        all_referred(op_constants(op), op_targets(op)),
{
    match op {
        Op::MakeHandler(_, ms, _) => {
            lemma_handler_referred(ms);
        },
        Op::LoadObject(h) => {
            assert(constant_target(op_constants(op)[0]) == Some(h));
        },
        Op::Call(h, _) => {
            assert(constant_target(op_constants(op)[0]) == Some(h));
        },
        Op::TailCall(h, _) => {
            assert(constant_target(op_constants(op)[0]) == Some(h));
        },
        Op::MakeClosure(h, _) => {
            assert(constant_target(op_constants(op)[0]) == Some(h));
        },
        _ => {},
    }
}

proof fn lemma_with_targets(cs: Seq<ConstantView>, deps: Seq<Seq<u8>>, more: Seq<Seq<u8>>)
    requires
        all_referred(cs, deps),
        all_referred(cs, more),
    ensures
        all_referred(cs, with_targets(deps, more)),
    decreases more.len(),
{
    if more.len() > 0 {
        let rest = more.drop_last();
        assert(referred(cs, more[more.len() - 1]));
        assert forall|k: int| 0 <= k < rest.len() implies referred(cs, #[trigger] rest[k]) by {
            assert(referred(cs, more[k]));
        }
        lemma_with_targets(cs, deps, rest);
    }
}

proof fn lemma_lowered_referred(code: Seq<Op>, k: int)
    ensures
        all_referred(lowered(code, k).constants, lowered(code, k).dependencies),
    decreases k,
{
    if k > 0 {
        let before = lowered(code, k - 1);
        let op = code[k - 1];
        lemma_lowered_referred(code, k - 1);
        lemma_op_referred(op);
        let cs = before.constants + op_constants(op);
        assert forall|i: int| 0 <= i < before.dependencies.len() implies referred(
            cs,
            #[trigger] before.dependencies[i],
        ) by {
            lemma_referred_on(before.constants, op_constants(op), before.dependencies[i]);
        }
        assert forall|i: int| 0 <= i < op_targets(op).len() implies referred(
            cs,
            #[trigger] op_targets(op)[i],
        ) by {
            lemma_referred_on(before.constants, op_constants(op), op_targets(op)[i]);
        }
        lemma_with_targets(cs, before.dependencies, op_targets(op));
    }
}

/// The constants of code refer to everything that it depends on.
pub proof fn dependencies_are_referred(code: Seq<Op>)
    ensures
        lowered_code(code) matches Ok(l) ==> all_referred(l.constants, l.dependencies),
{
    lemma_lowered_referred(code, code.len() as int);
}

/// The most constants that a function can have.
pub const MAX_CONSTANTS: usize = 65535;

pub(crate) proof fn lemma_handler_len(base: int, n: int)
    requires
        0 <= n,
    ensures
        handler_bytes(base, n).len() == 4 * n,
    decreases n,
{
    vstd::bytes::lemma_auto_spec_u16_to_from_le_bytes();
    if n > 0 {
        lemma_handler_len(base, n - 1);
    }
}

/// The length of an instruction does not depend on its constants or distance.
pub(crate) proof fn lemma_op_len(op: Op, base: int, distance: int)
    ensures
        op_bytes(op, base, distance).len() == op_bytes(op, 0, 0).len(),
{
    vstd::bytes::lemma_auto_spec_u16_to_from_le_bytes();
    vstd::bytes::lemma_auto_spec_u32_to_from_le_bytes();
    if let Op::MakeHandler(_, ms, _) = op {
        lemma_handler_len(base, ms.len() as int);
        lemma_handler_len(0, ms.len() as int);
    }
}

pub(crate) proof fn lemma_lowered_len(code: Seq<Op>, k: int)
    requires
        0 <= k <= code.len(),
    ensures
        lowered(code, k).bytecode.len() == size_upto(code, k),
    decreases k,
{
    if k > 0 {
        lemma_lowered_len(code, k - 1);
        lemma_op_len(
            code[k - 1],
            lowered(code, k - 1).constants.len() as int,
            jump_distance(code, k - 1),
        );
    }
}

pub(crate) proof fn lemma_size_monotone(code: Seq<Op>, a: int, b: int)
    requires
        0 <= a <= b,
    ensures
        size_upto(code, a) <= size_upto(code, b),
    decreases b - a,
{
    if a < b {
        lemma_size_monotone(code, a, b - 1);
    }
}

/// Append the number of a constant.
fn put_index(base: usize, k: usize, out: &mut Vec<u8>)
    requires
        base + k <= usize::MAX,
    ensures
        final(out)@ == old(out)@ + const_index(base as int, k as int),
{
    let n: u16 = (base + k) as u16;
    n.put(out);
}

/// Append the bytes of an instruction.
fn put_instr(instr: &Instr, base: usize, distance: usize, out: &mut Vec<u8>)
    requires
        base + op_constants(instr@).len() <= usize::MAX,
    ensures
        final(out)@ == old(out)@ + op_bytes(instr@, base as int, distance as int),
{
    let ghost start = out@;
    match instr {
        Instr::Mark(_) => {},
        Instr::Plain(o) => {
            out.push(o.as_byte());
        },
        Instr::Push(_) => {
            out.push(1);
            put_index(base, 0, out);
        },
        Instr::LoadLocal(n) => {
            out.push(2);
            n.put(out);
        },
        Instr::StoreLocal(n) => {
            out.push(3);
            n.put(out);
        },
        Instr::LoadCapture(n) => {
            out.push(4);
            n.put(out);
        },
        Instr::LoadObject(_) => {
            out.push(5);
            put_index(base, 0, out);
        },
        Instr::Call(_, n) => {
            out.push(6);
            put_index(base, 0, out);
            out.push(*n);
        },
        Instr::TailCall(_, n) => {
            out.push(7);
            put_index(base, 0, out);
            out.push(*n);
        },
        Instr::CallClosure(n) => {
            out.push(8);
            out.push(*n);
        },
        Instr::TailCallClosure(n) => {
            out.push(9);
            out.push(*n);
        },
        Instr::MakeClosure(_, n) => {
            out.push(10);
            put_index(base, 0, out);
            out.push(*n);
        },
        Instr::MakeTuple(n) => {
            out.push(11);
            out.push(*n);
        },
        Instr::TupleGet(n) => {
            out.push(12);
            out.push(*n);
        },
        Instr::MakeRecord(n) => {
            out.push(13);
            out.push(*n);
        },
        Instr::RecordGet(_) => {
            out.push(14);
            put_index(base, 0, out);
        },
        Instr::MakeList(n) => {
            out.push(15);
            n.put(out);
        },
        Instr::MakeEnum { enum_name, tag, variant, has_payload } => {
            out.push(16);
            put_index(base, 0, out);
            put_index(base, 1, out);
            tag.put(out);
            out.push(
                if *has_payload {
                    1
                } else {
                    0
                },
            );
        },
        Instr::EnumIs(n) => {
            out.push(17);
            n.put(out);
        },
        Instr::Jump(_) => {
            out.push(18);
            let d: u32 = distance as u32;
            d.put(out);
        },
        Instr::JumpIf(_) => {
            out.push(19);
            let d: u32 = distance as u32;
            d.put(out);
        },
        Instr::JumpIfNot(_) => {
            out.push(20);
            let d: u32 = distance as u32;
            d.put(out);
        },
        Instr::Suspend(_, n) => {
            out.push(21);
            put_index(base, 0, out);
            out.push(*n);
        },
        Instr::MakeHandler(a, ms, n) => {
            put_handler(*a, ms.len(), *n, base, out);
            return ;
        },
        Instr::GetAbilityArg(n) => {
            out.push(23);
            out.push(*n);
        },
    }
    assert(out@ =~= start + op_bytes(instr@, base as int, distance as int));
}

proof fn lemma_handler_constants_len(ms: Seq<(MethodView, Seq<u8>)>)
    ensures
        handler_constants(ms).len() == 2 * ms.len(),
    decreases ms.len(),
{
    if ms.len() > 0 {
        lemma_handler_constants_len(ms.drop_last());
    }
}

/// Append the bytes that make a handler.
fn put_handler(ability: u64, count: usize, captures: u8, base: usize, out: &mut Vec<u8>)
    ensures
        final(out)@ == old(out)@ + (seq![22u8] + <u64 as Wire>::bytes(ability) + u16_bytes(
            count as u16,
        ) + handler_bytes(base as int, count as int) + seq![captures]),
{
    let ghost start = out@;
    out.push(22);
    ability.put(out);
    let n: u16 = count as u16;
    n.put(out);
    let ghost head = out@;
    assert(head =~= start + (seq![22u8] + <u64 as Wire>::bytes(ability) + u16_bytes(n)));
    let mut i: usize = 0;
    assert(head + handler_bytes(base as int, 0) =~= head);
    while i < count
        invariant
            i <= count,
            out@ == head + handler_bytes(base as int, i as int),
        decreases count - i,
    {
        let first: u16 = (base as u128 + 2 * (i as u128)) as u16;
        let second: u16 = (base as u128 + 2 * (i as u128) + 1) as u16;
        first.put(out);
        second.put(out);
        proof {
            assert(u16_bytes(first) == const_index(base as int, 2 * (i as int)));
            assert(u16_bytes(second) == const_index(base as int, 2 * (i as int) + 1));
        }
        i = i + 1;
        assert(out@ =~= head + handler_bytes(base as int, i as int));
    }
    out.push(captures);
    assert(out@ =~= start + (seq![22u8] + <u64 as Wire>::bytes(ability) + u16_bytes(n)
        + handler_bytes(base as int, count as int) + seq![captures]));
}

/// Append the constants of an instruction.
fn put_constants(instr: &Instr, out: &mut Vec<Constant>)
    ensures
        constant_views(final(out)@) == constant_views(old(out)@) + op_constants(instr@),
{
    let ghost start = constant_views(out@);
    match instr {
        Instr::Push(c) => {
            out.push(c.copy());
        },
        Instr::LoadObject(h) => {
            out.push(Constant::Object(*h));
        },
        Instr::Call(h, _) => {
            out.push(Constant::Function(*h));
        },
        Instr::TailCall(h, _) => {
            out.push(Constant::Function(*h));
        },
        Instr::MakeClosure(h, _) => {
            out.push(Constant::Function(*h));
        },
        Instr::RecordGet(s) => {
            out.push(Constant::String(owned(s.as_str())));
        },
        Instr::MakeEnum { enum_name, tag, variant, has_payload } => {
            out.push(Constant::String(owned(enum_name.as_str())));
            out.push(Constant::String(owned(variant.as_str())));
        },
        Instr::Suspend(m, _) => {
            out.push(Constant::Method(copy_method(m)));
        },
        Instr::MakeHandler(_, ms, _) => {
            let ghost all = handler_views(ms@);
            let mut i: usize = 0;
            assert(all.take(0) =~= seq![]);
            assert(start + handler_constants(all.take(0)) =~= start);
            while i < ms.len()
                invariant
                    i <= ms@.len(),
                    all == handler_views(ms@),
                    constant_views(out@) == start + handler_constants(all.take(i as int)),
                decreases ms@.len() - i,
            {
                let ghost was = constant_views(out@);
                assert(all.take(i + 1).drop_last() =~= all.take(i as int));
                let m = copy_method(&ms[i].0);
                let ghost mv = m@;
                out.push(Constant::Method(m));
                out.push(Constant::Function(ms[i].1));
                assert(constant_views(out@) =~= was + seq![
                    ConstantView::Method(mv),
                    ConstantView::Function(ms@[i as int].1@),
                ]);
                i = i + 1;
                assert(constant_views(out@) =~= start + handler_constants(all.take(i as int)));
            }
            assert(all.take(ms@.len() as int) =~= all);
        },
        _ => {},
    }
    assert(constant_views(out@) =~= start + op_constants(instr@));
}

/// A copy of a method.
pub fn copy_method(m: &AbilityMethodRef) -> (r: AbilityMethodRef)
    ensures
        r@ == m@,
{
    AbilityMethodRef {
        ability_id: m.ability_id,
        ability_uuid: m.ability_uuid,
        signature: m.signature,
        impl_fn: m.impl_fn,
        never: m.never,
    }
}

/// Append a hash unless it is there.
fn put_target(h: &Digest, out: &mut Vec<Digest>)
    ensures
        digest_views(final(out)@) == (if digest_views(old(out)@).contains(h@) {
            digest_views(old(out)@)
        } else {
            digest_views(old(out)@).push(h@)
        }),
{
    let ghost was = digest_views(out@);
    let mut i: usize = 0;
    while i < out.len()
        invariant
            i <= out@.len(),
            was == digest_views(out@),
            forall|k: int| 0 <= k < i ==> was[k] != h@,
        decreases out@.len() - i,
    {
        if out[i].same(h) {
            assert(was[i as int] == h@);
            assert(was.contains(h@));
            return ;
        }
        i = i + 1;
    }
    assert(!was.contains(h@));
    out.push(*h);
    assert(digest_views(out@) =~= was.push(h@));
}

/// Append what an instruction depends on, unless it is there.
fn put_targets(instr: &Instr, out: &mut Vec<Digest>)
    ensures
        digest_views(final(out)@) == with_targets(digest_views(old(out)@), op_targets(instr@)),
{
    let ghost start = digest_views(out@);
    proof {
        reveal_with_fuel(with_targets, 2);
        assert forall|h: Seq<u8>| #[trigger] seq![h].drop_last() == Seq::<Seq<u8>>::empty() by {
            assert(seq![h].drop_last() =~= Seq::<Seq<u8>>::empty());
        }
    }
    match instr {
        Instr::LoadObject(h) => {
            put_target(h, out);
        },
        Instr::Call(h, _) => {
            put_target(h, out);
        },
        Instr::TailCall(h, _) => {
            put_target(h, out);
        },
        Instr::MakeClosure(h, _) => {
            put_target(h, out);
        },
        Instr::MakeHandler(_, ms, _) => {
            let ghost all = handler_targets(handler_views(ms@));
            let mut i: usize = 0;
            assert(all.take(0) =~= seq![]);
            while i < ms.len()
                invariant
                    i <= ms@.len(),
                    all == handler_targets(handler_views(ms@)),
                    digest_views(out@) == with_targets(start, all.take(i as int)),
                decreases ms@.len() - i,
            {
                assert(all.take(i + 1).drop_last() =~= all.take(i as int));
                put_target(&ms[i].1, out);
                i = i + 1;
            }
            assert(all.take(ms@.len() as int) =~= all);
        },
        _ => {},
    }
}

/// Code as bytes, with its constants and what it depends on.
#[derive(Debug)]
pub struct LoweredCode {
    /// The bytes.
    pub bytecode: Vec<u8>,
    /// The constants.
    pub constants: Vec<Constant>,
    /// What the code depends on.
    pub dependencies: Vec<Digest>,
    /// Where the code comes from.
    pub source_map: Vec<SourceMapping>,
}

impl View for LoweredCode {
    type V = Lowered;

    open spec fn view(&self) -> Lowered {
        Lowered {
            bytecode: self.bytecode@,
            constants: constant_views(self.constants@),
            dependencies: digest_views(self.dependencies@),
            source_map: self.source_map@,
        }
    }
}

/// The error for too many constants.
pub open spec fn constants_error(n: nat) -> ErrorView {
    ErrorView { kind: KindView::TooManyConstants { count: n as usize }, span: (0, 0) }
}

/// What code becomes as bytes; an error where it has too many constants.
pub open spec fn lowered_code(code: Seq<Op>) -> Result<Lowered, ErrorView> {
    let l = lowered(code, code.len() as int);
    if l.constants.len() > MAX_CONSTANTS {
        Err(constants_error(l.constants.len()))
    } else {
        Ok(l)
    }
}

/// Where each instruction begins, and where the last one ends.
fn offsets(code: &Vec<Instr>) -> (r: Vec<usize>)
    ensures
        r@.len() == code@.len() + 1,
        forall|k: int| 0 <= k <= code@.len() ==> (#[trigger] r@[k]) == size_upto(ops(code@), k),
{
    let ghost all = ops(code@);
    let mut scratch: Vec<u8> = Vec::new();
    let mut constants: Vec<Constant> = Vec::new();
    let mut out: Vec<usize> = Vec::new();
    out.push(0);
    let mut i: usize = 0;
    while i < code.len()
        invariant
            i <= code@.len(),
            all == ops(code@),
            scratch@.len() == size_upto(all, i as int),
            out@.len() == i + 1,
            forall|k: int| 0 <= k <= i ==> (#[trigger] out@[k]) == size_upto(all, k),
        decreases code@.len() - i,
    {
        let base: usize = constants.len();
        let ghost before = constant_views(constants@);
        put_constants(&code[i], &mut constants);
        assert(constants.len() == constant_views(constants@).len());
        assert(before.len() == base);
        assert(base + op_constants(code@[i as int]@).len() == constants.len());
        put_instr(&code[i], base, 0, &mut scratch);
        proof {
            lemma_op_len(all[i as int], base as int, 0);
        }
        i = i + 1;
        out.push(scratch.len());
    }
    out
}

/// Turn code into bytes.
pub fn lower(code: &Vec<Instr>) -> (r: Result<LoweredCode, CompileError>)
    ensures
        match lowered_code(ops(code@)) {
            Ok(l) => r matches Ok(c) && c@ == l,
            Err(e) => r matches Err(f) && f@ == e,
        },
{
    let ghost all = ops(code@);
    let starts = offsets(code);
    let mut bytecode: Vec<u8> = Vec::new();
    let mut constants: Vec<Constant> = Vec::new();
    let mut dependencies: Vec<Digest> = Vec::new();
    let mut source_map: Vec<SourceMapping> = Vec::new();
    let mut i: usize = 0;
    proof {
        assert(constant_views(constants@) =~= seq![]);
        assert(digest_views(dependencies@) =~= seq![]);
    }
    while i < code.len()
        invariant
            i <= code@.len(),
            all == ops(code@),
            starts@.len() == code@.len() + 1,
            forall|k: int| 0 <= k <= code@.len() ==> (#[trigger] starts@[k]) == size_upto(all, k),
            bytecode@ == lowered(all, i as int).bytecode,
            constant_views(constants@) == lowered(all, i as int).constants,
            digest_views(dependencies@) == lowered(all, i as int).dependencies,
            source_map@ == lowered(all, i as int).source_map,
        decreases code@.len() - i,
    {
        let instr = &code[i];
        assert(all[i as int] == instr@);
        let skip: usize = match instr {
            Instr::Jump(n) => *n,
            Instr::JumpIf(n) => *n,
            Instr::JumpIfNot(n) => *n,
            _ => 0,
        };
        let to: usize = if skip > code.len() - i - 1 {
            code.len()
        } else {
            i + 1 + skip
        };
        proof {
            lemma_size_monotone(all, i + 1, to as int);
        }
        let distance: usize = starts[to] - starts[i + 1];
        assert(distance == jump_distance(all, i as int));
        if let Instr::Mark(span) = instr {
            source_map.push(
                SourceMapping {
                    bytecode_offset: bytecode.len(),
                    source_start: span.start as usize,
                    source_end: span.end as usize,
                    line: 0,
                    column: 0,
                },
            );
        }
        let base: usize = constants.len();
        let ghost before = constant_views(constants@);
        put_constants(instr, &mut constants);
        assert(constants.len() == constant_views(constants@).len());
        assert(before.len() == base);
        assert(base + op_constants(instr@).len() == constants.len());
        put_instr(instr, base, distance, &mut bytecode);
        put_targets(instr, &mut dependencies);
        i = i + 1;
    }
    assert(constant_views(constants@).len() == constants@.len());
    if constants.len() > MAX_CONSTANTS {
        return Err(
            CompileError::new(
                CompileErrorKind::TooManyConstants { count: constants.len() },
                (0, 0),
            ),
        );
    }
    Ok(LoweredCode { bytecode, constants, dependencies, source_map })
}

/// A jump lands where the instruction behind the skipped ones begins: the bytes
/// up to the end of the jump and the distance it skips make up the bytes up to
/// there.
pub proof fn jumps_land(code: Seq<Op>, i: int)
    requires
        0 <= i < code.len(),
        0 <= op_skip(code[i]),
        i + 1 + op_skip(code[i]) <= code.len(),
    ensures
        lowered(code, i + 1).bytecode.len() + jump_distance(code, i) == lowered(
            code,
            i + 1 + op_skip(code[i]),
        ).bytecode.len(),
{
    lemma_lowered_len(code, i + 1);
    lemma_lowered_len(code, i + 1 + op_skip(code[i]));
}

} // verus!
