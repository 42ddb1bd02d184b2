//! What closures capture, and what the arms of handlers take.

use vstd::prelude::*;

use crate::ast::{Expr, Param};
use crate::compiler::code::Op;
use crate::compiler::codegen::{arm_params, captures_code, lambda_code};
use crate::compiler::context::{assoc_get, by_slot, insert_by_slot, Scope, TablesView};
use crate::compiler::dicts::Gen;
use crate::compiler::execution::{
    keeps, lemma_assoc, lemma_placed, lemma_split, lemma_step, lemma_store,
    lemma_taking, placed,
};
use crate::compiler::machine::{run, Frame, Host, Val};

verus! {

// ── captures ────────────────────────────────────────────────────────────────

/// Each captured value takes one instruction.
proof fn lemma_captures_len(s: Scope, caps: Seq<(Seq<char>, u16)>)
    requires
        captures_code(s, caps) is Ok,
    ensures
        captures_code(s, caps)->Ok_0.0.len() == caps.len(),
    decreases caps.len(),
{
    if caps.len() > 0 {
        lemma_captures_len(s, caps.drop_last());
    }
}

/// The function of a lambda has a parameter for each that the lambda declares. The
/// closure is made of that function, and of as many values as were loaded for it.
pub proof fn lambdas_take_what_they_declare(t: TablesView, e: Expr, g: Gen)
    requires
        e.kind is Lambda,
        lambda_code(t, e, g) is Ok,
        e.kind->Lambda_0.params@.len() <= u8::MAX,
        lambda_code(t, e, g)->Ok_0.0.len() <= u8::MAX,
    ensures
        ({
            let (code, h) = lambda_code(t, e, g)->Ok_0;
            let made = h.out.lambdas.last();
            &&& h.out.lambdas.len() > 0
            &&& made.2.param_count == e.kind->Lambda_0.params@.len()
            &&& code.len() > 0
            &&& code.last() == Op::MakeClosure(made.0, (code.len() - 1) as u8)
        }),
{
    let (code, h) = lambda_code(t, e, g)->Ok_0;
    assert forall|caps: Seq<(Seq<char>, u16)>|
        (#[trigger] captures_code(g.scope, caps)) is Ok implies captures_code(
        g.scope,
        caps,
    )->Ok_0.0.len() == caps.len() by {
        lemma_captures_len(g.scope, caps);
    }
}

/// The values of the locals of some names.
pub open spec fn named_values(s: Scope, caps: Seq<(Seq<char>, u16)>, f: Frame) -> Seq<Val> {
    Seq::new(
        caps.len(),
        |k: int| f.locals[assoc_get(s.local_names, caps[k].0)->0],
    )
}

/// Where a function has locals for what a closure captures, running the code that
/// loads it leaves the values of these locals, in the order of the captured names.
pub proof fn captured_values_are_those_of_the_locals(
    m: Host,
    s: Scope,
    caps: Seq<(Seq<char>, u16)>,
    w: Seq<Op>,
    pc: int,
    stack: Seq<Val>,
    f: Frame,
)
    requires
        captures_code(s, caps) is Ok,
        placed(w, pc, captures_code(s, caps)->Ok_0.0),
        forall|k: int|
            0 <= k < caps.len() ==> (assoc_get(s.local_names, (#[trigger] caps[k]).0) matches Some(
                slot,
            ) && f.locals.contains_key(slot)),
    ensures
        captures_code(s, caps)->Ok_0.1 == s,
        run(m, w, pc, stack, f) == run(
            m,
            w,
            pc + captures_code(s, caps)->Ok_0.0.len(),
            stack + named_values(s, caps, f),
            f,
        ),
    decreases caps.len(),
{
    if caps.len() == 0 {
        assert(stack + named_values(s, caps, f) =~= stack);
    } else {
        let rest = caps.drop_last();
        let name = caps.last().0;
        assert forall|k: int| 0 <= k < rest.len() implies (assoc_get(
            s.local_names,
            (#[trigger] rest[k]).0,
        ) matches Some(slot) && f.locals.contains_key(slot)) by {
            assert(caps[k] == rest[k]);
        }
        let before = captures_code(s, rest)->Ok_0.0;
        let code = captures_code(s, caps)->Ok_0.0;
        assert(caps[caps.len() - 1].0 == name);
        assert(assoc_get(s.local_names, name) is Some);
        assert(captures_code(s, rest) is Ok);
        let op = code.last();
        assert(code =~= before + seq![op]);
        lemma_placed(w, pc, before, seq![op]);
        captured_values_are_those_of_the_locals(m, s, rest, w, pc, stack, f);
        let slot = assoc_get(s.local_names, name)->0;
        assert(op == Op::LoadLocal(slot));
        assert(w[pc + before.len()] == op);
        let now = stack + named_values(s, rest, f);
        assert(now.take(now.len() - 0) =~= now);
        lemma_step(m, w, pc + before.len(), now, f, op);
        assert(now.push(f.locals[slot]) =~= stack + named_values(s, caps, f));
    }
}

proof fn lemma_in_slot_order(s: Seq<(Seq<char>, u16)>, x: (Seq<char>, u16))
    requires
        forall|i: int, j: int| 0 <= i < j < s.len() ==> (#[trigger] s[i]).1 <= (#[trigger] s[j]).1,
    ensures
        ({
            let r = insert_by_slot(s, x);
            &&& forall|i: int, j: int|
                0 <= i < j < r.len() ==> (#[trigger] r[i]).1 <= (#[trigger] r[j]).1
            &&& r.to_multiset() =~= s.to_multiset().insert(x)
            &&& r.len() == s.len() + 1
            &&& forall|i: int| 0 <= i < r.len() ==> (#[trigger] r[i]).1 <= x.1 || (s.len() > 0
                && r[i].1 <= s.last().1)
        }),
    decreases s.len(),
{
    broadcast use vstd::seq_lib::group_to_multiset_ensures;

    let r = insert_by_slot(s, x);
    if s.len() > 0 && x.1 < s.last().1 {
        let rest = s.drop_last();
        lemma_in_slot_order(rest, x);
        let q = insert_by_slot(rest, x);
        assert(s =~= rest.push(s.last()));
        assert forall|i: int, j: int| 0 <= i < j < r.len() implies (#[trigger] r[i]).1 <= (
        #[trigger] r[j]).1 by {
            if j == r.len() - 1 {
                assert(r[i] == q[i]);
                if rest.len() > 0 {
                    assert(s[rest.len() - 1].1 <= s[s.len() - 1].1);
                }
            } else {
                assert(r[i] == q[i] && r[j] == q[j]);
            }
        }
        assert(r == q.push(s.last()));
        assert(r.to_multiset() =~= s.to_multiset().insert(x));
    }
}

/// What is captured comes in the order of its slots, and nothing else comes.
pub proof fn captures_come_in_the_order_of_their_slots(s: Seq<(Seq<char>, u16)>)
    ensures
        forall|i: int, j: int|
            0 <= i < j < s.len() ==> (#[trigger] by_slot(s)[i]).1 <= (#[trigger] by_slot(s)[j]).1,
        by_slot(s).to_multiset() =~= s.to_multiset(),
        by_slot(s).len() == s.len(),
    decreases s.len(),
{
    broadcast use vstd::seq_lib::group_to_multiset_ensures;

    if s.len() > 0 {
        captures_come_in_the_order_of_their_slots(s.drop_last());
        lemma_in_slot_order(by_slot(s.drop_last()), s.last());
        assert(s =~= s.drop_last().push(s.last()));
    }
}

/// A closure that is made behind the loading of its captures holds them, the one of
/// the lowest slot first.
pub proof fn closures_hold_what_they_capture(
    m: Host,
    s: Scope,
    names: Seq<(Seq<char>, u16)>,
    hash: Seq<u8>,
    w: Seq<Op>,
    pc: int,
    stack: Seq<Val>,
    f: Frame,
)
    requires
        names.len() <= u8::MAX,
        captures_code(s, by_slot(names)) is Ok,
        placed(
            w,
            pc,
            captures_code(s, by_slot(names))->Ok_0.0.push(
                Op::MakeClosure(hash, by_slot(names).len() as u8),
            ),
        ),
        forall|k: int|
            0 <= k < by_slot(names).len() ==> (assoc_get(
                s.local_names,
                (#[trigger] by_slot(names)[k]).0,
            ) matches Some(slot) && f.locals.contains_key(slot)),
    ensures
        run(m, w, pc, stack, f) == run(
            m,
            w,
            pc + names.len() + 1,
            stack.push(Val::Closure(hash, named_values(s, by_slot(names), f))),
            f,
        ),
{
    let caps = by_slot(names);
    let code = captures_code(s, caps)->Ok_0.0;
    let op = Op::MakeClosure(hash, caps.len() as u8);
    let vs = named_values(s, caps, f);
    captures_come_in_the_order_of_their_slots(names);
    lemma_captures_len(s, caps);
    assert(code.push(op) =~= code + seq![op]);
    lemma_placed(w, pc, code, seq![op]);
    assert(w[pc + code.len()] == op);
    captured_values_are_those_of_the_locals(m, s, caps, w, pc, stack, f);
    lemma_split(stack, vs);
    lemma_taking(m, w, pc + code.len(), stack, vs, f, op, Val::Closure(hash, vs));
}

// ── arms of handlers ────────────────────────────────────────────────────────

/// An arm of a handler, whose second local holds the performed method, takes the
/// arguments of the method into the locals of its parameters, in their order.
pub proof fn arms_take_the_arguments_of_the_method(
    m: Host,
    s: Scope,
    params: Seq<Param>,
    w: Seq<Op>,
    pc: int,
    stack: Seq<Val>,
    f: Frame,
) -> (r: Frame)
    requires
        s.next_local == 2,
        arm_params(s, params) is Ok,
        placed(w, pc, arm_params(s, params)->Ok_0.0),
        params.len() <= u8::MAX,
        f.locals.contains_key(1),
        f.locals[1] is Suspended,
        params.len() <= f.locals[1]->Suspended_1.len(),
        forall|i: int, j: int|
            0 <= i < j < params.len() ==> (#[trigger] params[i]).id != (#[trigger] params[j]).id,
    ensures
        ({
            let (code, now) = arm_params(s, params)->Ok_0;
            &&& run(m, w, pc, stack, f) == run(m, w, pc + code.len(), stack, r)
            &&& now.next_local == params.len() + 2
            &&& keeps(f, r, 2)
            &&& forall|i: int|
                0 <= i < params.len() ==> (assoc_get(
                    now.locals,
                    (#[trigger] params[i]).id,
                ) matches Some(slot) && slot < now.next_local && r.locals.contains_key(slot)
                    && r.locals[slot] == f.locals[1]->Suspended_1[i])
        }),
    decreases params.len(),
{
    if params.len() == 0 {
        f
    } else {
        let rest = params.drop_last();
        let (before, was) = arm_params(s, rest)->Ok_0;
        let (code, now) = arm_params(s, params)->Ok_0;
        let n = rest.len();
        let three = seq![
            Op::LoadLocal(1),
            Op::GetAbilityArg(n as u8),
            Op::StoreLocal((n + 2) as u16),
        ];
        assert(code =~= before + three);
        lemma_placed(w, pc, before, three);
        let q = pc + before.len();
        assert(w[q] == three[0] && w[q + 1] == three[1] && w[q + 2] == three[2]);
        assert forall|i: int, j: int| 0 <= i < j < rest.len() implies (#[trigger] rest[i]).id != (
        #[trigger] rest[j]).id by {
            assert(params[i].id != params[j].id);
        }
        let g = arms_take_the_arguments_of_the_method(m, s, rest, w, pc, stack, f);
        let packed = g.locals[1];
        let v = packed->Suspended_1[n as int];
        assert(packed == f.locals[1]);
        assert(stack.take(stack.len() - 0) =~= stack);
        lemma_step(m, w, q, stack, g, three[0]);
        assert(stack.push(packed) =~= stack + seq![packed]);
        lemma_split(stack, seq![packed]);
        lemma_taking(m, w, q + 1, stack, seq![packed], g, three[1], v);
        lemma_store(m, w, q + 2, stack, v, g, (n + 2) as u16);
        let r = Frame { locals: g.locals.insert((n + 2) as u16, v), ..g };
        let p = params.last();
        assert forall|i: int| 0 <= i < params.len() implies (assoc_get(
            now.locals,
            (#[trigger] params[i]).id,
        ) matches Some(slot) && slot < now.next_local && r.locals.contains_key(slot)
            && r.locals[slot] == f.locals[1]->Suspended_1[i]) by {
            lemma_assoc(was.locals, p.id, was.next_local, params[i].id);
            if i < n {
                assert(params[i].id != params[n as int].id);
                assert(rest[i] == params[i]);
            }
        }
        r
    }
}

} // verus!
