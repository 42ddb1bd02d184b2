//! What compiled code depends on, and what a module declares.

use vstd::prelude::*;

use crate::ast::{Item, ItemKind};
use crate::compiler::code::{lowered, op_targets, with_targets, Op};
use crate::compiler::items::{
    all_abilities, all_consts, all_enums, all_externs, all_functions, all_impls, all_structs,
};

verus! {

// ── dependencies ────────────────────────────────────────────────────────────

/// Whether an instruction calls a function, makes a closure or a handler of it, or
/// loads an object.
pub open spec fn uses(op: Op, h: Seq<u8>) -> bool {
    match op {
        Op::Call(f, _) => f == h,
        Op::TailCall(f, _) => f == h,
        Op::MakeClosure(f, _) => f == h,
        Op::LoadObject(o) => o == h,
        Op::MakeHandler(_, ms, _) => exists|k: int| 0 <= k < ms.len() && (#[trigger] ms[k]).1 == h,
        _ => false,
    }
}

proof fn lemma_uses(op: Op, h: Seq<u8>)
    ensures
        uses(op, h) <==> op_targets(op).contains(h),
{
    let s = op_targets(op);
    match op {
        Op::Call(f, _) | Op::TailCall(f, _) | Op::MakeClosure(f, _) => {
            assert(s[0] == f);
        },
        Op::LoadObject(o) => {
            assert(s[0] == o);
        },
        Op::MakeHandler(_, ms, _) => {
            if uses(op, h) {
                let k = choose|k: int| 0 <= k < ms.len() && (#[trigger] ms[k]).1 == h;
                assert(s[k] == h);
            }
            if s.contains(h) {
                let k = choose|k: int| 0 <= k < s.len() && s[k] == h;
                assert(ms[k].1 == h);
            }
        },
        _ => {},
    }
}

proof fn lemma_targets_added(deps: Seq<Seq<u8>>, more: Seq<Seq<u8>>, h: Seq<u8>)
    ensures
        with_targets(deps, more).contains(h) <==> deps.contains(h) || more.contains(h),
        deps.no_duplicates() ==> with_targets(deps, more).no_duplicates(),
    decreases more.len(),
{
    if more.len() > 0 {
        let rest = more.drop_last();
        lemma_targets_added(deps, rest, h);
        let before = with_targets(deps, rest);
        let last = more.last();
        assert(more =~= rest.push(last));
        assert(more.contains(h) <==> rest.contains(h) || h == last) by {
            if rest.contains(h) {
                let k = choose|k: int| 0 <= k < rest.len() && rest[k] == h;
                assert(more[k] == h);
            }
            if h == last {
                assert(more[more.len() - 1] == h);
            }
            if more.contains(h) && h != last {
                let k = choose|k: int| 0 <= k < more.len() && more[k] == h;
                assert(rest[k] == h);
            }
        }
        if !before.contains(last) {
            let now = before.push(last);
            assert(now.contains(h) <==> before.contains(h) || h == last) by {
                if before.contains(h) {
                    let k = choose|k: int| 0 <= k < before.len() && before[k] == h;
                    assert(now[k] == h);
                }
                if h == last {
                    assert(now[now.len() - 1] == h);
                }
                if now.contains(h) && h != last {
                    let k = choose|k: int| 0 <= k < now.len() && now[k] == h;
                    assert(before[k] == h);
                }
            }
        }
    }
}

/// Code depends on just what its instructions use, on each once.
pub proof fn code_depends_on_what_it_uses(code: Seq<Op>, k: int, h: Seq<u8>)
    requires
        0 <= k <= code.len(),
    ensures
        lowered(code, k).dependencies.contains(h) <==> exists|i: int|
            0 <= i < k && uses(#[trigger] code[i], h),
        lowered(code, k).dependencies.no_duplicates(),
    decreases k,
{
    if k > 0 {
        code_depends_on_what_it_uses(code, k - 1, h);
        lemma_targets_added(
            lowered(code, k - 1).dependencies,
            op_targets(code[k - 1]),
            h,
        );
        lemma_uses(code[k - 1], h);
    }
}

// ── declarations ────────────────────────────────────────────────────────────

/// How many declarations were collected from some items.
pub open spec fn collected_count(items: Seq<Item>) -> nat {
    all_functions(items).len() + all_externs(items).len() + all_consts(items).len() + all_enums(
        items,
    ).len() + all_structs(items).len() + all_abilities(items).len() + all_impls(items).len()
}

proof fn lemma_pushed<A>(s: Seq<A>, x: A, y: A)
    ensures
        s.contains(x) ==> s.push(y).contains(x),
        s.push(y).contains(y),
{
    if s.contains(x) {
        let k = choose|k: int| 0 <= k < s.len() && s[k] == x;
        assert(s.push(y)[k] == x);
    }
    assert(s.push(y)[s.len() as int] == y);
}

/// Every declaration of a module is among those of its kind, and among those of no
/// other: together there are at most as many as the module has items.
pub proof fn every_declaration_is_collected(items: Seq<Item>, i: int)
    requires
        0 <= i < items.len(),
    ensures
        match items[i].kind {
            ItemKind::Function(d) => all_functions(items).contains(d),
            ItemKind::ExternFn(d) => all_externs(items).contains(d),
            ItemKind::Const(d) => all_consts(items).contains(d),
            ItemKind::Enum(d) => all_enums(items).contains(d),
            ItemKind::Struct(d) => all_structs(items).contains(d),
            ItemKind::Ability(d) => all_abilities(items).contains(d),
            ItemKind::Impl(d) => all_impls(items).contains(d),
            _ => true,
        },
        collected_count(items) <= items.len(),
    decreases items.len(),
{
    let rest = items.drop_last();
    lemma_collected(items);
    if i < rest.len() {
        every_declaration_is_collected(rest, i);
        assert(rest[i] == items[i]);
        match (items[i].kind, items.last().kind) {
            (ItemKind::Function(d), ItemKind::Function(x)) => {
                lemma_pushed(all_functions(rest), d, x);
            },
            (ItemKind::ExternFn(d), ItemKind::ExternFn(x)) => {
                lemma_pushed(all_externs(rest), d, x);
            },
            (ItemKind::Const(d), ItemKind::Const(x)) => {
                lemma_pushed(all_consts(rest), d, x);
            },
            (ItemKind::Enum(d), ItemKind::Enum(x)) => {
                lemma_pushed(all_enums(rest), d, x);
            },
            (ItemKind::Struct(d), ItemKind::Struct(x)) => {
                lemma_pushed(all_structs(rest), d, x);
            },
            (ItemKind::Ability(d), ItemKind::Ability(x)) => {
                lemma_pushed(all_abilities(rest), d, x);
            },
            (ItemKind::Impl(d), ItemKind::Impl(x)) => {
                lemma_pushed(all_impls(rest), d, x);
            },
            _ => {},
        }
    } else {
        match items[i].kind {
            ItemKind::Function(d) => {
                lemma_pushed(all_functions(rest), d, d);
            },
            ItemKind::ExternFn(d) => {
                lemma_pushed(all_externs(rest), d, d);
            },
            ItemKind::Const(d) => {
                lemma_pushed(all_consts(rest), d, d);
            },
            ItemKind::Enum(d) => {
                lemma_pushed(all_enums(rest), d, d);
            },
            ItemKind::Struct(d) => {
                lemma_pushed(all_structs(rest), d, d);
            },
            ItemKind::Ability(d) => {
                lemma_pushed(all_abilities(rest), d, d);
            },
            ItemKind::Impl(d) => {
                lemma_pushed(all_impls(rest), d, d);
            },
            _ => {},
        }
    }
}

proof fn lemma_collected(items: Seq<Item>)
    ensures
        collected_count(items) <= items.len(),
    decreases items.len(),
{
    if items.len() > 0 {
        lemma_collected(items.drop_last());
    }
}

} // verus!
