//! Code reads back from its bytes.
//!
//! Lowering loses nothing: at the place of an instruction its bytes, with the
//! constants of the function, say which instruction it is.

use vstd::bytes::{spec_u16_from_le_bytes, spec_u32_from_le_bytes, spec_u64_from_le_bytes};
use vstd::prelude::*;

use crate::bytecode::{ConstantView, MethodView};
use crate::compiler::code::{
    const_index, handler_bytes, handler_constants, jump_distance, lemma_handler_len,
    lemma_lowered_len, lemma_op_len, lemma_size_monotone, lowered, lowered_code, op_bytes,
    op_constants, size_upto, u16_bytes, Op, Opcode, MAX_CONSTANTS,
};
use crate::wire::{u32_bytes, Wire};

verus! {

// ── reading ─────────────────────────────────────────────────────────────────

/// The number in the two bytes at a place, the low one first.
pub open spec fn u16_at(s: Seq<u8>, at: int) -> u16 {
    spec_u16_from_le_bytes(s.subrange(at, at + 2))
}

/// The number in the four bytes at a place, the low one first.
pub open spec fn u32_at(s: Seq<u8>, at: int) -> u32 {
    spec_u32_from_le_bytes(s.subrange(at, at + 4))
}

/// The number in the eight bytes at a place, the low one first.
pub open spec fn u64_at(s: Seq<u8>, at: int) -> u64 {
    spec_u64_from_le_bytes(s.subrange(at, at + 8))
}

/// The constant whose number is at a place.
pub open spec fn constant_at(s: Seq<u8>, at: int, cs: Seq<ConstantView>) -> ConstantView {
    cs[u16_at(s, at) as int]
}

/// The instruction without operands of a byte.
pub open spec fn opcode_of(b: u8) -> Option<Opcode> {
    match b {
        32 => Some(Opcode::Dup),
        33 => Some(Opcode::Pop),
        34 => Some(Opcode::Return),
        35 => Some(Opcode::Add),
        36 => Some(Opcode::Sub),
        37 => Some(Opcode::Mul),
        38 => Some(Opcode::Div),
        39 => Some(Opcode::Mod),
        40 => Some(Opcode::Eq),
        41 => Some(Opcode::Ne),
        42 => Some(Opcode::Lt),
        43 => Some(Opcode::Le),
        44 => Some(Opcode::Gt),
        45 => Some(Opcode::Ge),
        46 => Some(Opcode::Neg),
        47 => Some(Opcode::Not),
        48 => Some(Opcode::Perform),
        49 => Some(Opcode::Resume),
        50 => Some(Opcode::TailResume),
        51 => Some(Opcode::HandleWithValue),
        52 => Some(Opcode::Unhandle),
        53 => Some(Opcode::EnumPayload),
        54 => Some(Opcode::Sqrt),
        55 => Some(Opcode::Abs),
        56 => Some(Opcode::Floor),
        57 => Some(Opcode::Ceil),
        58 => Some(Opcode::Round),
        59 => Some(Opcode::Trunc),
        60 => Some(Opcode::Sin),
        61 => Some(Opcode::Cos),
        62 => Some(Opcode::Tan),
        63 => Some(Opcode::Ln),
        64 => Some(Opcode::Exp),
        65 => Some(Opcode::Pow),
        66 => Some(Opcode::Min),
        67 => Some(Opcode::Max),
        68 => Some(Opcode::Asin),
        69 => Some(Opcode::Acos),
        70 => Some(Opcode::Atan),
        71 => Some(Opcode::Atan2),
        72 => Some(Opcode::Log10),
        73 => Some(Opcode::Log2),
        74 => Some(Opcode::ListLength),
        75 => Some(Opcode::ListGet),
        76 => Some(Opcode::ListHead),
        77 => Some(Opcode::ListTail),
        78 => Some(Opcode::ListConcat),
        79 => Some(Opcode::ListAppend),
        80 => Some(Opcode::ListIsEmpty),
        81 => Some(Opcode::ListLast),
        82 => Some(Opcode::ListReverse),
        83 => Some(Opcode::ListSort),
        84 => Some(Opcode::ListSlice),
        85 => Some(Opcode::StringLength),
        86 => Some(Opcode::StringConcat),
        87 => Some(Opcode::StringContains),
        88 => Some(Opcode::StringSplit),
        89 => Some(Opcode::StringJoin),
        90 => Some(Opcode::StringTrim),
        91 => Some(Opcode::StringSlice),
        92 => Some(Opcode::StringChars),
        93 => Some(Opcode::StringReplace),
        94 => Some(Opcode::StringStartsWith),
        95 => Some(Opcode::StringEndsWith),
        96 => Some(Opcode::StringToUpper),
        97 => Some(Opcode::StringToLower),
        98 => Some(Opcode::StringIndexOf),
        99 => Some(Opcode::StringRepeat),
        100 => Some(Opcode::StringReverse),
        101 => Some(Opcode::ToString),
        102 => Some(Opcode::ParseNumber),
        103 => Some(Opcode::ParseBool),
        104 => Some(Opcode::MakeEmptyMap),
        105 => Some(Opcode::MapGet),
        106 => Some(Opcode::MapInsert),
        107 => Some(Opcode::MapRemove),
        108 => Some(Opcode::MapContains),
        109 => Some(Opcode::MapLength),
        110 => Some(Opcode::MapKeys),
        111 => Some(Opcode::MapValues),
        112 => Some(Opcode::MakeEmptySet),
        113 => Some(Opcode::SetInsert),
        114 => Some(Opcode::SetRemove),
        115 => Some(Opcode::SetContains),
        116 => Some(Opcode::SetLength),
        117 => Some(Opcode::SetUnion),
        118 => Some(Opcode::SetIntersection),
        119 => Some(Opcode::SetDifference),
        120 => Some(Opcode::SetToList),
        121 => Some(Opcode::EnumTag),
        122 => Some(Opcode::SerializeValue),
        123 => Some(Opcode::DeserializeValue),
        124 => Some(Opcode::ClosureHash),
        125 => Some(Opcode::ClosureCaptures),
        126 => Some(Opcode::HandlerMethods),
        127 => Some(Opcode::HexToBinary),
        128 => Some(Opcode::BinaryToHex),
        129 => Some(Opcode::BinaryFrom),
        130 => Some(Opcode::BinaryToList),
        131 => Some(Opcode::BinaryLength),
        132 => Some(Opcode::BinaryGet),
        133 => Some(Opcode::BinarySlice),
        134 => Some(Opcode::BinaryConcat),
        _ => None,
    }
}

/// The methods of a handler and their functions, whose numbers begin at a place.
pub open spec fn methods_at(s: Seq<u8>, at: int, n: int, cs: Seq<ConstantView>) -> Seq<
    (MethodView, Seq<u8>),
>
    decreases n,
{
    if n <= 0 {
        seq![]
    } else {
        methods_at(s, at, n - 1, cs).push(
            (
                constant_at(s, at + 4 * (n - 1), cs)->Method_0,
                constant_at(s, at + 4 * (n - 1) + 2, cs)->Function_0,
            ),
        )
    }
}

/// The instruction at a place. A jump has the distance in bytes that it skips.
pub open spec fn instruction_at(s: Seq<u8>, at: int, cs: Seq<ConstantView>) -> Option<Op> {
    match s[at] {
        1 => Some(Op::Push(constant_at(s, at + 1, cs))),
        2 => Some(Op::LoadLocal(u16_at(s, at + 1))),
        3 => Some(Op::StoreLocal(u16_at(s, at + 1))),
        4 => Some(Op::LoadCapture(u16_at(s, at + 1))),
        5 => Some(Op::LoadObject(constant_at(s, at + 1, cs)->Object_0)),
        6 => Some(Op::Call(constant_at(s, at + 1, cs)->Function_0, s[at + 3])),
        7 => Some(Op::TailCall(constant_at(s, at + 1, cs)->Function_0, s[at + 3])),
        8 => Some(Op::CallClosure(s[at + 1])),
        9 => Some(Op::TailCallClosure(s[at + 1])),
        10 => Some(Op::MakeClosure(constant_at(s, at + 1, cs)->Function_0, s[at + 3])),
        11 => Some(Op::MakeTuple(s[at + 1])),
        12 => Some(Op::TupleGet(s[at + 1])),
        13 => Some(Op::MakeRecord(s[at + 1])),
        14 => Some(Op::RecordGet(constant_at(s, at + 1, cs)->String_0)),
        15 => Some(Op::MakeList(u16_at(s, at + 1))),
        16 => Some(
            Op::MakeEnum {
                enum_name: constant_at(s, at + 1, cs)->String_0,
                tag: u16_at(s, at + 5),
                variant: constant_at(s, at + 3, cs)->String_0,
                has_payload: s[at + 7] == 1,
            },
        ),
        17 => Some(Op::EnumIs(u16_at(s, at + 1))),
        18 => Some(Op::Jump(u32_at(s, at + 1) as int)),
        19 => Some(Op::JumpIf(u32_at(s, at + 1) as int)),
        20 => Some(Op::JumpIfNot(u32_at(s, at + 1) as int)),
        21 => Some(Op::Suspend(constant_at(s, at + 1, cs)->Method_0, s[at + 3])),
        22 => {
            let n = u16_at(s, at + 9) as int;
            Some(
                Op::MakeHandler(
                    u64_at(s, at + 1),
                    methods_at(s, at + 11, n, cs),
                    s[at + 11 + 4 * n],
                ),
            )
        },
        23 => Some(Op::GetAbilityArg(s[at + 1])),
        b => match opcode_of(b) {
            Some(o) => Some(Op::Plain(o)),
            None => None,
        },
    }
}

/// An instruction with the distance in bytes that it skips, if it is a jump.
pub open spec fn over(op: Op, distance: int) -> Op {
    match op {
        Op::Jump(_) => Op::Jump(distance),
        Op::JumpIf(_) => Op::JumpIf(distance),
        Op::JumpIfNot(_) => Op::JumpIfNot(distance),
        _ => op,
    }
}

// ── one instruction ─────────────────────────────────────────────────────────

/// Whether bytes stand at a place in other bytes.
spec fn stand_at(s: Seq<u8>, at: int, b: Seq<u8>) -> bool {
    0 <= at && at + b.len() <= s.len() && s.subrange(at, at + b.len()) == b
}

proof fn lemma_stand(s: Seq<u8>, at: int, a: Seq<u8>, b: Seq<u8>)
    requires
        stand_at(s, at, a + b),
    ensures
        stand_at(s, at, a),
        stand_at(s, at + a.len(), b),
{
    let w = s.subrange(at, at + a.len() + b.len());
    assert(s.subrange(at, at + a.len()) =~= w.subrange(0, a.len() as int));
    assert(w.subrange(0, a.len() as int) =~= a);
    assert(s.subrange(at + a.len(), at + a.len() + b.len()) =~= w.subrange(
        a.len() as int,
        w.len() as int,
    ));
    assert(w.subrange(a.len() as int, w.len() as int) =~= b);
}

proof fn lemma_stands_one(s: Seq<u8>, at: int, b: u8)
    requires
        stand_at(s, at, seq![b]),
    ensures
        s[at] == b,
{
    assert(s.subrange(at, at + 1)[0] == b);
}

proof fn lemma_number(s: Seq<u8>, at: int, n: u16)
    requires
        stand_at(s, at, u16_bytes(n)),
    ensures
        u16_at(s, at) == n,
{
    vstd::bytes::lemma_auto_spec_u16_to_from_le_bytes();
}

proof fn lemma_methods(
    s: Seq<u8>,
    at: int,
    cs: Seq<ConstantView>,
    base: int,
    ms: Seq<(MethodView, Seq<u8>)>,
    n: int,
)
    requires
        0 <= n <= ms.len(),
        0 <= base,
        base + 2 * ms.len() <= MAX_CONSTANTS,
        base + 2 * ms.len() <= cs.len(),
        handler_constants(ms) == cs.subrange(base, base + 2 * ms.len()),
        stand_at(s, at, handler_bytes(base, n)),
    ensures
        methods_at(s, at, n, cs) == ms.take(n),
    decreases n,
{
    vstd::bytes::lemma_auto_spec_u16_to_from_le_bytes();
    if n > 0 {
        let k = n - 1;
        let x = const_index(base, 2 * k);
        let y = const_index(base, 2 * k + 1);
        lemma_handler_len(base, k);
        lemma_stand(s, at, handler_bytes(base, k), x + y);
        lemma_stand(s, at + 4 * k, x, y);
        lemma_number(s, at + 4 * k, (base + 2 * k) as u16);
        lemma_number(s, at + 4 * k + 2, (base + 2 * k + 1) as u16);
        lemma_methods(s, at, cs, base, ms, k);
        lemma_handler_constant(ms, k);
        let all = cs.subrange(base, base + 2 * ms.len());
        assert(all[2 * k] == cs[base + 2 * k] && all[2 * k + 1] == cs[base + 2 * k + 1]);
        assert(methods_at(s, at, n, cs) =~= ms.take(n));
    } else {
        assert(ms.take(0) =~= seq![]);
    }
}

proof fn lemma_handler_constant(ms: Seq<(MethodView, Seq<u8>)>, k: int)
    requires
        0 <= k < ms.len(),
    ensures
        handler_constants(ms).len() == 2 * ms.len(),
        handler_constants(ms)[2 * k] == ConstantView::Method(ms[k].0),
        handler_constants(ms)[2 * k + 1] == ConstantView::Function(ms[k].1),
    decreases ms.len(),
{
    let rest = ms.drop_last();
    if rest.len() > 0 {
        lemma_handler_constant(
            rest,
            if k < rest.len() {
                k
            } else {
                0
            },
        );
        assert(k < rest.len() ==> rest[k] == ms[k]);
    } else {
        assert(handler_constants(rest).len() == 0);
    }
}

proof fn lemma_with_number(s: Seq<u8>, at: int, k: u8, n: u16)
    requires
        stand_at(s, at, seq![k] + u16_bytes(n)),
    ensures
        s[at] == k,
        u16_at(s, at + 1) == n,
{
    lemma_stand(s, at, seq![k], u16_bytes(n));
    lemma_stands_one(s, at, k);
    lemma_number(s, at + 1, n);
}

proof fn lemma_with_number_and(s: Seq<u8>, at: int, k: u8, n: u16, x: u8)
    requires
        stand_at(s, at, seq![k] + u16_bytes(n) + seq![x]),
    ensures
        s[at] == k,
        u16_at(s, at + 1) == n,
        s[at + 3] == x,
{
    vstd::bytes::lemma_auto_spec_u16_to_from_le_bytes();
    lemma_stand(s, at, seq![k] + u16_bytes(n), seq![x]);
    lemma_stands_one(s, at + 3, x);
    lemma_with_number(s, at, k, n);
}

proof fn lemma_with_distance(s: Seq<u8>, at: int, k: u8, n: u32)
    requires
        stand_at(s, at, seq![k] + u32_bytes(n)),
    ensures
        s[at] == k,
        u32_at(s, at + 1) == n,
{
    vstd::bytes::lemma_auto_spec_u32_to_from_le_bytes();
    lemma_stand(s, at, seq![k], u32_bytes(n));
    lemma_stands_one(s, at, k);
}

proof fn lemma_with_byte(s: Seq<u8>, at: int, k: u8, x: u8)
    requires
        stand_at(s, at, seq![k, x]),
    ensures
        s[at] == k,
        s[at + 1] == x,
{
    assert(seq![k, x] =~= seq![k] + seq![x]);
    lemma_stand(s, at, seq![k], seq![x]);
    lemma_stands_one(s, at, k);
    lemma_stands_one(s, at + 1, x);
}

/// An instruction reads back from its bytes and its constants.
#[verifier::rlimit(50)]
proof fn lemma_reads_back(
    op: Op,
    s: Seq<u8>,
    at: int,
    cs: Seq<ConstantView>,
    base: int,
    distance: int,
)
    requires
        !(op is Mark),
        0 <= base,
        base + op_constants(op).len() <= MAX_CONSTANTS,
        base + op_constants(op).len() <= cs.len(),
        op_constants(op) == cs.subrange(base, base + op_constants(op).len()),
        0 <= distance <= u32::MAX,
        stand_at(s, at, op_bytes(op, base, distance)),
    ensures
        instruction_at(s, at, cs) == Some(over(op, distance)),
{
    vstd::bytes::lemma_auto_spec_u16_to_from_le_bytes();
    vstd::bytes::lemma_auto_spec_u32_to_from_le_bytes();
    vstd::bytes::lemma_auto_spec_u64_to_from_le_bytes();
    let mine = op_constants(op);
    let first = base as u16;
    assert(mine.len() > 0 ==> mine[0] == cs[base]);
    assert(mine.len() > 1 ==> mine[1] == cs[base + 1]);
    match op {
        Op::MakeHandler(a, ms, n) => {
            let m = ms.len() as int;
            if m > 0 {
                lemma_handler_constant(ms, 0);
            } else {
                assert(handler_constants(ms) =~= cs.subrange(base, base + 0));
            }
            let id = <u64 as Wire>::bytes(a);
            let count = u16_bytes(ms.len() as u16);
            let rest = handler_bytes(base, m);
            lemma_handler_len(base, m);
            lemma_stand(s, at, seq![22u8] + id + count + rest, seq![n]);
            lemma_stand(s, at, seq![22u8] + id + count, rest);
            lemma_stand(s, at, seq![22u8] + id, count);
            lemma_stand(s, at, seq![22u8], id);
            lemma_stands_one(s, at, 22);
            lemma_stands_one(s, at + 11 + 4 * m, n);
            lemma_number(s, at + 9, m as u16);
            lemma_methods(s, at + 11, cs, base, ms, m);
            assert(ms.take(m) =~= ms);
        },
        Op::MakeEnum { enum_name, tag, variant, has_payload } => {
            let x = const_index(base, 0);
            let y = const_index(base, 1);
            let last = if has_payload {
                1u8
            } else {
                0u8
            };
            lemma_stand(s, at, seq![16u8] + x + y + u16_bytes(tag), seq![last]);
            lemma_stand(s, at, seq![16u8] + x + y, u16_bytes(tag));
            lemma_stand(s, at, seq![16u8] + x, y);
            lemma_with_number(s, at, 16, first);
            lemma_number(s, at + 3, (base + 1) as u16);
            lemma_number(s, at + 5, tag);
            lemma_stands_one(s, at + 7, last);
        },
        Op::Plain(o) => {
            lemma_stands_one(s, at, o.byte());
        },
        Op::Push(_) => {
            lemma_with_number(s, at, 1, first);
        },
        Op::LoadLocal(n) => {
            lemma_with_number(s, at, 2, n);
        },
        Op::StoreLocal(n) => {
            lemma_with_number(s, at, 3, n);
        },
        Op::LoadCapture(n) => {
            lemma_with_number(s, at, 4, n);
        },
        Op::MakeList(n) => {
            lemma_with_number(s, at, 15, n);
        },
        Op::EnumIs(n) => {
            lemma_with_number(s, at, 17, n);
        },
        Op::LoadObject(_) => {
            lemma_with_number(s, at, 5, first);
        },
        Op::RecordGet(_) => {
            lemma_with_number(s, at, 14, first);
        },
        Op::Call(_, n) => {
            lemma_with_number_and(s, at, 6, first, n);
        },
        Op::TailCall(_, n) => {
            lemma_with_number_and(s, at, 7, first, n);
        },
        Op::MakeClosure(_, n) => {
            lemma_with_number_and(s, at, 10, first, n);
        },
        Op::Suspend(_, n) => {
            lemma_with_number_and(s, at, 21, first, n);
        },
        Op::CallClosure(n) => {
            lemma_with_byte(s, at, 8, n);
        },
        Op::TailCallClosure(n) => {
            lemma_with_byte(s, at, 9, n);
        },
        Op::MakeTuple(n) => {
            lemma_with_byte(s, at, 11, n);
        },
        Op::TupleGet(n) => {
            lemma_with_byte(s, at, 12, n);
        },
        Op::MakeRecord(n) => {
            lemma_with_byte(s, at, 13, n);
        },
        Op::GetAbilityArg(n) => {
            lemma_with_byte(s, at, 23, n);
        },
        Op::Jump(_) => {
            lemma_with_distance(s, at, 18, distance as u32);
        },
        Op::JumpIf(_) => {
            lemma_with_distance(s, at, 19, distance as u32);
        },
        Op::JumpIfNot(_) => {
            lemma_with_distance(s, at, 20, distance as u32);
        },
        Op::Mark(_) => {},
    }
}

// ── code ────────────────────────────────────────────────────────────────────

proof fn lemma_lowered_begins(code: Seq<Op>, i: int, k: int)
    requires
        0 <= i <= k <= code.len(),
    ensures
        lowered(code, i).bytecode.is_prefix_of(lowered(code, k).bytecode),
        lowered(code, i).constants.is_prefix_of(lowered(code, k).constants),
    decreases k - i,
{
    if i < k {
        lemma_lowered_begins(code, i, k - 1);
        let a = lowered(code, i);
        let b = lowered(code, k - 1);
        let c = lowered(code, k);
        assert(b.bytecode.is_prefix_of(c.bytecode)) by {
            assert(c.bytecode.take(b.bytecode.len() as int) =~= b.bytecode);
        }
        assert(b.constants.is_prefix_of(c.constants)) by {
            assert(c.constants.take(b.constants.len() as int) =~= b.constants);
        }
        assert(a.bytecode =~= c.bytecode.subrange(0, a.bytecode.len() as int));
        assert(a.constants =~= c.constants.subrange(0, a.constants.len() as int));
    }
}

/// The bytes of code, read with its constants, say at the place of each instruction
/// which instruction it is; a jump skips the distance in bytes to where it lands. A
/// mark takes no bytes.
pub proof fn code_reads_back_from_its_bytes(code: Seq<Op>, i: int)
    requires
        lowered_code(code) is Ok,
        0 <= i < code.len(),
        0 <= jump_distance(code, i) <= u32::MAX,
    ensures
        ({
            let l = lowered_code(code)->Ok_0;
            if code[i] is Mark {
                size_upto(code, i + 1) == size_upto(code, i)
            } else {
                instruction_at(l.bytecode, size_upto(code, i), l.constants) == Some(
                    over(code[i], jump_distance(code, i)),
                )
            }
        }),
{
    let n = code.len() as int;
    let l = lowered(code, n);
    let a = lowered(code, i);
    let b = lowered(code, i + 1);
    let op = code[i];
    let base = a.constants.len() as int;
    let d = jump_distance(code, i);
    lemma_lowered_begins(code, i, n);
    lemma_lowered_begins(code, i + 1, n);
    lemma_lowered_len(code, i);
    lemma_lowered_len(code, i + 1);
    lemma_op_len(op, base, d);
    let bytes = op_bytes(op, base, d);
    let at = size_upto(code, i);
    if !(op is Mark) {
        assert(b.bytecode == a.bytecode + bytes);
        assert(b.constants == a.constants + op_constants(op));
        assert(l.bytecode.subrange(at, at + bytes.len()) =~= bytes) by {
            assert forall|j: int| 0 <= j < bytes.len() implies l.bytecode[at + j]
                == #[trigger] bytes[j] by {
                assert(b.bytecode[at + j] == bytes[j]);
                assert(l.bytecode.subrange(0, b.bytecode.len() as int)[at + j] == b.bytecode[at
                    + j]);
            }
        }
        let k = op_constants(op).len();
        assert(l.constants.subrange(base, base + k) =~= op_constants(op)) by {
            assert forall|j: int| 0 <= j < k implies l.constants[base + j]
                == #[trigger] op_constants(op)[j] by {
                assert(b.constants[base + j] == op_constants(op)[j]);
                assert(l.constants.subrange(0, b.constants.len() as int)[base + j]
                    == b.constants[base + j]);
            }
        }
        lemma_reads_back(op, l.bytecode, at, l.constants, base, d);
    }
}

/// An instruction takes up bytes, so different instructions are at different places.
pub proof fn instructions_take_up_bytes(code: Seq<Op>, i: int, j: int)
    requires
        0 <= i < j <= code.len(),
        !(code[i] is Mark),
    ensures
        size_upto(code, i) < size_upto(code, j),
{
    vstd::bytes::lemma_auto_spec_u16_to_from_le_bytes();
    vstd::bytes::lemma_auto_spec_u32_to_from_le_bytes();
    lemma_size_monotone(code, i + 1, j);
    assert(op_bytes(code[i], 0, 0).len() > 0);
}

} // verus!
