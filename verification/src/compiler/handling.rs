//! How handlers are put together.

use vstd::prelude::*;

use crate::ast::{Expr, ExprKind, HandlerLiteralMethod, Span};
use crate::compiler::code::{Op, Opcode};
use crate::compiler::codegen::{
    arm_groups, else_code, expr_code, groups_code, handlers_code, kind_code, method_ref, result_name,
    Installed,
};
use crate::compiler::context::{
    ability_of, assoc_get, assoc_set, function_hash, impl_symbol, lemma_assoc_at, method_from, AbilityView,
    with_local, MethodInfoView, Scope, TablesView,
};
use crate::compiler::dicts::Gen;
use crate::compiler::execution::{
    leaves, lemma_assoc, lemma_closure_call, lemma_step, lemma_store, placed,
};
use crate::compiler::machine::{run, Frame, Host, Val};
use crate::fqn::KeyView;

verus! {

/// The arms in the group of an ability.
pub open spec fn group_of(groups: Seq<(u64, Seq<int>)>, id: u64) -> Seq<int> {
    match assoc_get(groups, id) {
        Some(arms) => arms,
        None => seq![],
    }
}

/// The arms of a handler are grouped by the ability they handle: an arm is in the
/// group of its ability and in no other, and groups list the arms in their order.
pub proof fn arms_are_grouped_by_their_ability(
    t: TablesView,
    ms: Seq<HandlerLiteralMethod>,
    k: int,
    j: int,
    id: u64,
)
    requires
        arm_groups(t, ms, k) is Ok,
        0 <= j < k <= ms.len(),
    ensures
        ability_of(t, ms[j].ability) is Some,
        ({
            let arms = group_of(arm_groups(t, ms, k)->Ok_0, id);
            &&& arms.contains(j) <==> ability_of(t, ms[j].ability)->0.id == id
            &&& forall|a: int, b: int|
                0 <= a < b < arms.len() ==> (#[trigger] arms[a]) < (#[trigger] arms[b])
            &&& forall|a: int| 0 <= a < arms.len() ==> 0 <= (#[trigger] arms[a]) < k
        }),
    decreases k,
{
    lemma_groups(t, ms, k, id);
    lemma_grouped(t, ms, k, j, id);
}

proof fn lemma_groups(t: TablesView, ms: Seq<HandlerLiteralMethod>, k: int, id: u64)
    requires
        arm_groups(t, ms, k) is Ok,
        0 <= k <= ms.len(),
    ensures
        ({
            let arms = group_of(arm_groups(t, ms, k)->Ok_0, id);
            &&& forall|a: int, b: int|
                0 <= a < b < arms.len() ==> (#[trigger] arms[a]) < (#[trigger] arms[b])
            &&& forall|a: int| 0 <= a < arms.len() ==> 0 <= (#[trigger] arms[a]) < k
        }),
    decreases k,
{
    if k > 0 {
        lemma_groups(t, ms, k - 1, id);
        let groups = arm_groups(t, ms, k - 1)->Ok_0;
        let info = ability_of(t, ms[k - 1].ability)->0;
        let own = group_of(groups, info.id).push(k - 1);
        lemma_assoc(groups, info.id, own, id);
        lemma_groups(t, ms, k - 1, info.id);
        let now = arm_groups(t, ms, k)->Ok_0;
        assert(now == assoc_set(groups, info.id, own));
        if id == info.id {
            let before = group_of(groups, id);
            assert(group_of(now, id) == own);
            assert forall|a: int, b: int| 0 <= a < b < own.len() implies (#[trigger] own[a]) < (
            #[trigger] own[b]) by {
                assert(own[a] == before[a]);
                assert(b < before.len() ==> own[b] == before[b]);
            }
            assert forall|a: int| 0 <= a < own.len() implies 0 <= (#[trigger] own[a]) < k by {
                assert(a < before.len() ==> own[a] == before[a]);
            }
        } else {
            assert(group_of(now, id) == group_of(groups, id));
        }
    } else {
        lemma_assoc_at(arm_groups(t, ms, k)->Ok_0, id);
        assert(group_of(arm_groups(t, ms, k)->Ok_0, id).len() == 0);
    }
}

proof fn lemma_grouped(t: TablesView, ms: Seq<HandlerLiteralMethod>, k: int, j: int, id: u64)
    requires
        arm_groups(t, ms, k) is Ok,
        0 <= j < k <= ms.len(),
    ensures
        ability_of(t, ms[j].ability) is Some,
        ({
            let arms = group_of(arm_groups(t, ms, k)->Ok_0, id);
            arms.contains(j) <==> ability_of(t, ms[j].ability)->0.id == id
        }),
    decreases k,
{
    let groups = arm_groups(t, ms, k - 1)->Ok_0;
    let info = ability_of(t, ms[k - 1].ability)->0;
    let before = group_of(groups, info.id);
    let own = before.push(k - 1);
    lemma_assoc(groups, info.id, own, id);
    lemma_groups(t, ms, k - 1, id);
    assert(arm_groups(t, ms, k)->Ok_0 == assoc_set(groups, info.id, own));
    if j < k - 1 {
        lemma_grouped(t, ms, k - 1, j, id);
        if id == info.id {
            assert(own.contains(j) <==> before.contains(j)) by {
                if before.contains(j) {
                    let a = choose|a: int| 0 <= a < before.len() && before[a] == j;
                    assert(own[a] == j);
                }
                if own.contains(j) {
                    let a = choose|a: int| 0 <= a < own.len() && own[a] == j;
                    assert(before[a] == j);
                }
            }
        }
    } else {
        assert(own[own.len() - 1] == j);
        let same = group_of(groups, id);
        assert(forall|a: int| 0 <= a < same.len() ==> (#[trigger] same[a]) < j);
    }
}

/// The handlers of some arms are one for each ability, in order. The last that is
/// installed is that of the last group.
pub proof fn a_handler_is_installed_for_each_ability(
    t: TablesView,
    outer: Scope,
    ms: Seq<HandlerLiteralMethod>,
    groups: Seq<(u64, Seq<int>)>,
    n: nat,
    span: Span,
    done: Installed,
)
    requires
        groups_code(t, outer, ms, groups, n, span, done) is Ok,
        n <= groups.len(),
    ensures
        ({
            let r = groups_code(t, outer, ms, groups, n, span, done)->Ok_0;
            &&& r.count == done.count + n
            &&& done.code.is_prefix_of(r.code)
            &&& n > 0 ==> r.code.len() >= 2 && r.code.last() == Op::Plain(Opcode::HandleWithValue)
                && r.code[r.code.len() - 2] is MakeHandler && r.code[r.code.len()
                - 2]->MakeHandler_0 == groups[n - 1].0
        }),
    decreases n,
{
    if n > 0 {
        let k = (n - 1) as nat;
        a_handler_is_installed_for_each_ability(t, outer, ms, groups, k, span, done);
        let b = groups_code(t, outer, ms, groups, k, span, done)->Ok_0;
        let r = groups_code(t, outer, ms, groups, n, span, done)->Ok_0;
        assert(b.code.is_prefix_of(r.code)) by {
            assert(b.code =~= r.code.subrange(0, b.code.len() as int));
        }
        assert(done.code =~= r.code.subrange(0, done.code.len() as int));
    } else {
        assert(done.code =~= done.code.subrange(0, done.code.len() as int));
    }
}

/// How many handlers an expression behind `with` stands for: one for each ability
/// that its arms handle, or one where it is a value.
pub open spec fn handler_count(t: TablesView, h: Expr) -> nat {
    match h.kind {
        ExprKind::HandlerLiteral(lit) => match arm_groups(
            t,
            lit.methods@,
            lit.methods@.len() as int,
        ) {
            Ok(groups) => groups.len(),
            Err(_) => 0,
        },
        _ => 1,
    }
}

/// How many handlers the first of some expressions behind `with` stand for.
pub open spec fn handlers_count(t: TablesView, hs: Seq<Expr>, n: nat) -> nat
    decreases n,
{
    if n == 0 {
        0
    } else {
        handlers_count(t, hs, (n - 1) as nat) + handler_count(t, hs[n - 1])
    }
}

/// A body is given all the handlers that it names, and is told how many there are:
/// as many are taken off behind it.
pub proof fn all_handlers_are_installed(
    t: TablesView,
    outer: Scope,
    hs: Seq<Expr>,
    n: nat,
    g: Gen,
)
    requires
        handlers_code(t, outer, hs, n, g) is Ok,
        n <= hs.len(),
    ensures
        handlers_code(t, outer, hs, n, g)->Ok_0.count == handlers_count(t, hs, n),
    decreases n,
{
    if n > 0 {
        let k = (n - 1) as nat;
        all_handlers_are_installed(t, outer, hs, k, g);
        let done = handlers_code(t, outer, hs, k, g)->Ok_0;
        let h = hs[n - 1];
        if let ExprKind::HandlerLiteral(lit) = h.kind {
            let groups = arm_groups(t, lit.methods@, lit.methods@.len() as int)->Ok_0;
            a_handler_is_installed_for_each_ability(
                t,
                outer,
                lit.methods@,
                groups,
                groups.len(),
                h.span,
                done,
            );
        }
    }
}

proof fn lemma_method_found(ms: Seq<MethodInfoView>, name: Seq<char>, i: int)
    requires
        0 <= i <= ms.len(),
    ensures
        match method_from(ms, name, i) {
            Some(k) => i <= k < ms.len() && ms[k].name == name && forall|j: int|
                i <= j < k ==> (#[trigger] ms[j]).name != name,
            None => forall|j: int| i <= j < ms.len() ==> (#[trigger] ms[j]).name != name,
        },
    decreases ms.len() - i,
{
    if i < ms.len() && ms[i].name != name {
        lemma_method_found(ms, name, i + 1);
    }
}

/// Code refers to a method of an ability by the ability's identity and the method's
/// signature. A method that the ability does not have cannot be referred to; one with
/// a default implementation brings its function along, and no other does.
pub proof fn methods_are_referred_to_as_declared(
    t: TablesView,
    info: AbilityView,
    method: Seq<char>,
    span: Span,
    unknown: Seq<char>,
)
    ensures
        match method_ref(t, info, method, span, unknown) {
            Ok(r) => {
                &&& r.ability_id == info.id && r.ability_uuid == info.uuid
                &&& exists|i: int|
                    0 <= i < info.methods.len() && (#[trigger] info.methods[i]).name == method
                        && r.signature == info.methods[i].signature && r.never
                        == info.methods[i].never && (r.impl_fn is Some
                        <==> info.methods[i].has_impl)
                &&& r.impl_fn is Some ==> r.impl_fn == function_hash(
                    t,
                    KeyView::Bare(impl_symbol(info.uuid, method)),
                )
            },
            Err(_) => (forall|i: int|
                0 <= i < info.methods.len() ==> (#[trigger] info.methods[i]).name != method)
                || function_hash(t, KeyView::Bare(impl_symbol(info.uuid, method))) is None,
        },
{
    lemma_method_found(info.methods, method, 0);
}

// ── running arms and bodies ─────────────────────────────────────────────────

/// Resuming hands the continuation of the arm, its first local, and the value to the
/// instruction that resumes, the value last.
pub proof fn resuming_takes_the_continuation_and_the_value(
    m: Host,
    t: TablesView,
    e: Expr,
    g: Gen,
    tail: bool,
    w: Seq<Op>,
    pc: int,
    s: Seq<Val>,
    f: Frame,
    v: Val,
    r: Frame,
)
    requires
        e.kind is Resume,
        kind_code(t, e, g, tail) is Ok,
        placed(w, pc, kind_code(t, e, g, tail)->Ok_0.0),
        f.locals.contains_key(0),
        leaves(
            m,
            w,
            pc + 1,
            s.push(f.locals[0]),
            f,
            expr_code(t, *e.kind->Resume_0, g, false)->Ok_0.0.len() as int,
            v,
            r,
            false,
        ),
    ensures
        ({
            let n = expr_code(t, *e.kind->Resume_0, g, false)->Ok_0.0.len();
            &&& run(m, w, pc, s, f) == run(m, w, pc + 1 + n, s.push(f.locals[0]).push(v), r)
            &&& kind_code(t, e, g, tail)->Ok_0.0.len() == n + 2
            &&& w[pc + 1 + n] == Op::Plain(
                if tail {
                    Opcode::TailResume
                } else {
                    Opcode::Resume
                },
            )
        }),
{
    let code = kind_code(t, e, g, tail)->Ok_0.0;
    let inner = expr_code(t, *e.kind->Resume_0, g, false)->Ok_0.0;
    assert(code =~= seq![Op::LoadLocal(0)] + inner.push(code.last()));
    assert(w[pc] == code[0]);
    assert(w[pc + 1 + inner.len()] == code[1 + inner.len() as int]);
    lemma_step(m, w, pc, s, f, Op::LoadLocal(0));
}

/// The clause behind `else` is applied to the value of the handled body.
pub proof fn else_clauses_are_applied_to_the_value(
    m: Host,
    t: TablesView,
    clause: Option<Box<Expr>>,
    h: Gen,
    w: Seq<Op>,
    pc: int,
    s: Seq<Val>,
    f: Frame,
    v: Val,
    c: Val,
    r: Frame,
)
    requires
        clause is Some,
        else_code(t, clause, h) is Ok,
        placed(w, pc, else_code(t, clause, h)->Ok_0.0),
        leaves(
            m,
            w,
            pc + 1,
            s,
            Frame { locals: f.locals.insert(h.scope.next_local, v), ..f },
            else_code(t, clause, h)->Ok_0.0.len() - 3,
            c,
            r,
            false,
        ),
        r.locals.contains_key(h.scope.next_local),
        r.locals[h.scope.next_local] == v,
    ensures
        run(m, w, pc, s.push(v), f) == run(
            m,
            w,
            pc + else_code(t, clause, h)->Ok_0.0.len(),
            s.push((m.apply)(c, seq![v])),
            r,
        ),
{
    let code = else_code(t, clause, h)->Ok_0.0;
    let slot = h.scope.next_local;
    let n = code.len() - 3;
    let scope = with_local(h.scope, 0, result_name())->Ok_0;
    let inner = expr_code(t, *clause->0, Gen { scope, ..h }, false)->Ok_0.0;
    assert(code =~= seq![Op::StoreLocal(slot)] + inner + seq![
        Op::LoadLocal(slot),
        Op::CallClosure(1),
    ]);
    assert(w[pc] == code[0] && w[pc + 1 + n] == code[1 + n] && w[pc + 2 + n] == code[2 + n]);
    lemma_store(m, w, pc, s, v, f, slot);
    lemma_step(m, w, pc + 1 + n, s.push(c), r, Op::LoadLocal(slot));
    assert(s.push(c).push(v) =~= s.push(c) + seq![v]);
    lemma_closure_call(m, w, pc + 2 + n, s, c, seq![v], r, 1, false);
}

} // verus!
