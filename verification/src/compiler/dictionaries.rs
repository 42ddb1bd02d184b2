//! What the dictionaries of trait bounds hold.

use vstd::prelude::*;

use crate::ast::{DictSource, Span};
use crate::bytecode::ConstantView;
use crate::compiler::code::{Op, Opcode};
use crate::compiler::codegen::with_params;
use crate::compiler::context::{
    assoc_get, empty_scope, function_hash, with_local, Produced, Scope, TablesView,
};
use crate::compiler::dicts::{
    dict_code, dict_method_code, dict_name, load_dict_code, slot_code, slot_function, symbols_code,
    Gen,
};
use crate::compiler::error::ErrorView;
use crate::compiler::execution::{
    lemma_assoc, lemma_placed, lemma_push, lemma_split, lemma_step, lemma_taking, placed,
};
use crate::compiler::functions::{body_scope, with_dicts, Signature};
use crate::compiler::machine::{first_locals, run, run_function, Frame, Host, Outcome, Val};
use crate::fqn::KeyView;
use crate::text::decimal_text;

verus! {

// ── methods of an impl ──────────────────────────────────────────────────────

/// The functions of symbols.
pub open spec fn functions_of(t: TablesView, symbols: Seq<String>) -> Seq<Val> {
    Seq::new(
        symbols.len(),
        |i: int| Val::Function(function_hash(t, KeyView::Bare(symbols[i]@))->0),
    )
}

proof fn lemma_symbols_run(
    m: Host,
    t: TablesView,
    symbols: Seq<String>,
    span: Span,
    w: Seq<Op>,
    pc: int,
    s: Seq<Val>,
    f: Frame,
)
    requires
        symbols_code(t, symbols, span) is Ok,
        placed(w, pc, symbols_code(t, symbols, span)->Ok_0),
    ensures
        symbols_code(t, symbols, span)->Ok_0.len() == symbols.len(),
        run(m, w, pc, s, f) == run(m, w, pc + symbols.len(), s + functions_of(t, symbols), f),
    decreases symbols.len(),
{
    if symbols.len() == 0 {
        assert(s + functions_of(t, symbols) =~= s);
    } else {
        let rest = symbols.drop_last();
        let before = symbols_code(t, rest, span)->Ok_0;
        let h = function_hash(t, KeyView::Bare(symbols.last()@))->0;
        let op = Op::Push(ConstantView::Function(h));
        let code = symbols_code(t, symbols, span)->Ok_0;
        assert(code =~= before + seq![op]);
        lemma_placed(w, pc, before, seq![op]);
        lemma_symbols_run(m, t, rest, span, w, pc, s, f);
        assert(w[pc + before.len()] == op);
        let now = s + functions_of(t, rest);
        lemma_push(m, w, pc + before.len(), now, f, ConstantView::Function(h));
        assert(now.push(Val::Function(h)) =~= s + functions_of(t, symbols));
    }
}

/// The dictionary of an impl holds the functions of its methods, in the order of
/// their symbols.
pub proof fn dictionaries_hold_the_methods_of_the_impl(
    m: Host,
    t: TablesView,
    source: DictSource,
    span: Span,
    g: Gen,
    w: Seq<Op>,
    pc: int,
    s: Seq<Val>,
    f: Frame,
)
    requires
        source is Impl,
        source->symbols@.len() <= u8::MAX,
        dict_code(t, source, span, g) is Ok,
        placed(w, pc, dict_code(t, source, span, g)->Ok_0.0),
    ensures
        run(m, w, pc, s, f) == run(
            m,
            w,
            pc + dict_code(t, source, span, g)->Ok_0.0.len(),
            s.push(Val::Tuple(functions_of(t, source->symbols@))),
            f,
        ),
{
    let symbols = source->symbols@;
    let loads = symbols_code(t, symbols, span)->Ok_0;
    let op = Op::MakeTuple(symbols.len() as u8);
    assert(dict_code(t, source, span, g)->Ok_0.0 =~= loads + seq![op]);
    lemma_placed(w, pc, loads, seq![op]);
    lemma_symbols_run(m, t, symbols, span, w, pc, s, f);
    assert(w[pc + loads.len()] == op);
    let vs = functions_of(t, symbols);
    lemma_split(s, vs);
    lemma_taking(m, w, pc + loads.len(), s, vs, f, op, Val::Tuple(vs));
}

// ── slots of conditional impls ──────────────────────────────────────────────

proof fn lemma_locals_run(
    m: Host,
    n: nat,
    from: int,
    w: Seq<Op>,
    pc: int,
    s: Seq<Val>,
    args: Seq<Val>,
    f: Frame,
)
    requires
        0 <= from,
        from + n <= args.len(),
        args.len() <= u16::MAX,
        f.locals == first_locals(args),
        placed(w, pc, Seq::new(n, |i: int| Op::LoadLocal((from + i) as u16))),
    ensures
        run(m, w, pc, s, f) == run(m, w, pc + n, s + args.subrange(from, from + n), f),
    decreases n,
{
    let all = Seq::new(n, |i: int| Op::LoadLocal((from + i) as u16));
    if n == 0 {
        assert(s + args.subrange(from, from + n) =~= s);
    } else {
        let k = (n - 1) as nat;
        let before = Seq::new(k, |i: int| Op::LoadLocal((from + i) as u16));
        let op = Op::LoadLocal((from + k) as u16);
        assert(all =~= before + seq![op]);
        lemma_placed(w, pc, before, seq![op]);
        lemma_locals_run(m, k, from, w, pc, s, args, f);
        assert(w[pc + k] == op);
        let now = s + args.subrange(from, from + k);
        assert(now.take(now.len() - 0) =~= now);
        assert(f.locals.contains_key((from + k) as u16));
        lemma_step(m, w, pc + k, now, f, op);
        assert(now.push(args[from + k]) =~= s + args.subrange(from, from + n));
    }
}

proof fn lemma_captures_run(m: Host, n: nat, w: Seq<Op>, pc: int, s: Seq<Val>, f: Frame)
    requires
        n <= f.captures.len(),
        n <= u16::MAX,
        placed(w, pc, Seq::new(n, |i: int| Op::LoadCapture(i as u16))),
    ensures
        run(m, w, pc, s, f) == run(m, w, pc + n, s + f.captures.take(n as int), f),
    decreases n,
{
    let all = Seq::new(n, |i: int| Op::LoadCapture(i as u16));
    if n == 0 {
        assert(s + f.captures.take(0) =~= s);
    } else {
        let k = (n - 1) as nat;
        let before = Seq::new(k, |i: int| Op::LoadCapture(i as u16));
        let op = Op::LoadCapture(k as u16);
        assert(all =~= before + seq![op]);
        lemma_placed(w, pc, before, seq![op]);
        lemma_captures_run(m, k, w, pc, s, f);
        assert(w[pc + k] == op);
        let now = s + f.captures.take(k as int);
        assert(now.take(now.len() - 0) =~= now);
        lemma_step(m, w, pc + k, now, f, op);
        assert(now.push(f.captures[k as int]) =~= s + f.captures.take(n as int));
    }
}

/// The function of a slot of a conditional impl calls the method with the value
/// arguments, then with the dictionaries that it captured, then with those that it
/// was given.
pub proof fn slots_call_their_method(
    m: Host,
    method: Seq<u8>,
    arity: nat,
    own: nat,
    args: Seq<Val>,
    captures: Seq<Val>,
)
    requires
        args.len() == arity + own,
        args.len() + captures.len() <= u8::MAX,
    ensures
        run_function(m, slot_code(method, arity, captures.len(), own), args, captures)
            == Outcome::Returned(
            (m.call)(method, args.take(arity as int) + captures + args.skip(arity as int)),
        ),
        slot_function(method, arity, captures.len(), own) matches Ok(f) ==> f.param_count
            == args.len() && f.local_count == args.len(),
{
    let n = captures.len();
    let f = Frame { locals: first_locals(args), captures };
    let a = Seq::new(arity, |i: int| Op::LoadLocal(i as u16));
    let b = Seq::new(n, |i: int| Op::LoadCapture(i as u16));
    let c = Seq::new(own, |i: int| Op::LoadLocal((arity + i) as u16));
    let call = Op::Call(method, (arity + n + own) as u8);
    let end = seq![call, Op::Plain(Opcode::Return)];
    let w = slot_code(method, arity, n, own);
    assert(w == a + b + c + end);
    assert(placed(w, 0, a + b + c + end));
    lemma_placed(w, 0, a + b + c, end);
    lemma_placed(w, 0, a + b, c);
    lemma_placed(w, 0, a, b);
    let none = Seq::<Val>::empty();
    let x = args.take(arity as int);
    let y = args.skip(arity as int);
    assert(a =~= Seq::new(arity, |i: int| Op::LoadLocal((0 + i) as u16)));
    lemma_locals_run(m, arity, 0, w, 0, none, args, f);
    assert(none + args.subrange(0, arity as int) =~= x);
    lemma_captures_run(m, n, w, arity as int, x, f);
    assert(captures.take(n as int) =~= captures);
    lemma_locals_run(m, own, arity as int, w, (arity + n) as int, x + captures, args, f);
    assert(args.subrange(arity as int, (arity + own) as int) =~= y);
    let q = (arity + n + own) as int;
    assert(w[q] == end[0] && w[q + 1] == end[1]);
    let vs = x + captures + y;
    let v = (m.call)(method, vs);
    assert(none + vs =~= vs);
    lemma_split(none, vs);
    lemma_taking(m, w, q, none, vs, f, call, v);
    assert(run(m, w, q + 1, none.push(v), f) == Outcome::Returned(v)) by {
        reveal(run);
    }
}

// ── dictionary parameters ───────────────────────────────────────────────────

/// The number that decimal digits stand for.
pub open spec fn decimal_number(s: Seq<char>) -> int
    decreases s.len(),
{
    if s.len() == 0 {
        0
    } else {
        10 * decimal_number(s.drop_last()) + (s.last() as int - '0' as int)
    }
}

/// Decimal digits stand for the number that they were written for.
pub proof fn decimal_digits_read_back(n: nat)
    ensures
        decimal_number(decimal_text(n)) == n,
    decreases n,
{
    let s = decimal_text(n);
    if n < 10 {
        assert(s.drop_last() =~= seq![]);
        assert(decimal_number(s.drop_last()) == 0);
    } else {
        decimal_digits_read_back(n / 10);
        assert(s.drop_last() =~= decimal_text(n / 10));
    }
}

proof fn lemma_dict_names(a: nat, b: nat)
    requires
        dict_name(a) == dict_name(b),
    ensures
        a == b,
{
    reveal_strlit("<dict ");
    reveal_strlit(">");
    let x = dict_name(a);
    let y = dict_name(b);
    assert(x.subrange(6, x.len() - 1) =~= decimal_text(a));
    assert(y.subrange(6, y.len() - 1) =~= decimal_text(b));
    decimal_digits_read_back(a);
    decimal_digits_read_back(b);
}

proof fn lemma_dictionary_local(s: Scope, from: nat, ds: Seq<(Seq<char>, Seq<char>)>, i: int)
    requires
        with_dicts(s, from, ds) is Ok,
        0 <= i < ds.len(),
    ensures
        with_dicts(s, from, ds)->Ok_0.next_local == s.next_local + ds.len(),
        assoc_get(with_dicts(s, from, ds)->Ok_0.local_names, dict_name((from + i) as nat)) == Some(
            (s.next_local + i) as u16,
        ),
    decreases ds.len(),
{
    let rest = ds.drop_last();
    let b = with_dicts(s, from, rest)->Ok_0;
    let last = (from + ds.len() - 1) as nat;
    assert(with_dicts(s, from, rest) is Ok);
    if rest.len() > 0 {
        lemma_dictionary_local(
            s,
            from,
            rest,
            if i < rest.len() {
                i
            } else {
                0
            },
        );
    }
    lemma_assoc(b.local_names, dict_name(last), b.next_local, dict_name((from + i) as nat));
    if dict_name(last) == dict_name((from + i) as nat) {
        lemma_dict_names(last, (from + i) as nat);
    }
}

/// The code that loads a dictionary parameter of a function leaves the argument that
/// was given for it: those of the dictionaries come behind the others, in the order
/// of the trait bounds.
pub proof fn dictionary_parameters_are_the_last_arguments(
    m: Host,
    sig: Signature,
    i: int,
    span: Span,
    out: Produced,
    args: Seq<Val>,
    w: Seq<Op>,
    pc: int,
    s: Seq<Val>,
    captures: Seq<Val>,
)
    requires
        body_scope(sig) is Ok,
        0 <= i < sig.dicts.len(),
        args.len() == body_scope(sig)->Ok_0.next_local,
        load_dict_code(i as nat, span, Gen { scope: body_scope(sig)->Ok_0, out }) is Ok,
        placed(
            w,
            pc,
            load_dict_code(i as nat, span, Gen { scope: body_scope(sig)->Ok_0, out })->Ok_0.0,
        ),
    ensures
        ({
            let f = Frame { locals: first_locals(args), captures };
            run(m, w, pc, s, f) == run(
                m,
                w,
                pc + 1,
                s.push(args[args.len() - sig.dicts.len() + i]),
                f,
            )
        }),
{
    let scope = body_scope(sig)->Ok_0;
    let f = Frame { locals: first_locals(args), captures };
    let base = with_params(
        match sig.receiver {
            Some(id) => with_local(empty_scope(), id, "self"@)->Ok_0,
            None => empty_scope(),
        },
        sig.params,
    )->Ok_0;
    assert(with_dicts(base, 0, sig.dicts) == Ok::<Scope, ErrorView>(scope));
    lemma_dictionary_local(base, 0, sig.dicts, i);
    let slot = (base.next_local + i) as u16;
    assert(assoc_get(scope.local_names, dict_name(i as nat)) == Some(slot));
    let code = load_dict_code(i as nat, span, Gen { scope, out })->Ok_0.0;
    assert(code =~= seq![Op::LoadLocal(slot)]);
    assert(w[pc] == code[0]);
    assert(f.locals.contains_key(slot));
    lemma_step(m, w, pc, s, f, Op::LoadLocal(slot));
}

/// A bound method is the function in its slot of the dictionary that was given for the
/// bound.
pub proof fn bound_methods_are_in_their_slots(
    m: Host,
    sig: Signature,
    i: int,
    slot: nat,
    span: Span,
    out: Produced,
    args: Seq<Val>,
    methods: Seq<Val>,
    w: Seq<Op>,
    pc: int,
    s: Seq<Val>,
    captures: Seq<Val>,
)
    requires
        body_scope(sig) is Ok,
        0 <= i < sig.dicts.len(),
        args.len() == body_scope(sig)->Ok_0.next_local,
        args[args.len() - sig.dicts.len() + i] == Val::Tuple(methods),
        slot < methods.len(),
        slot <= u8::MAX,
        dict_method_code(i as nat, slot, span, Gen { scope: body_scope(sig)->Ok_0, out }) is Ok,
        placed(
            w,
            pc,
            dict_method_code(
                i as nat,
                slot,
                span,
                Gen { scope: body_scope(sig)->Ok_0, out },
            )->Ok_0.0,
        ),
    ensures
        ({
            let f = Frame { locals: first_locals(args), captures };
            run(m, w, pc, s, f) == run(m, w, pc + 2, s.push(methods[slot as int]), f)
        }),
{
    let g = Gen { scope: body_scope(sig)->Ok_0, out };
    let f = Frame { locals: first_locals(args), captures };
    let d = Val::Tuple(methods);
    let load = load_dict_code(i as nat, span, g)->Ok_0.0;
    let code = dict_method_code(i as nat, slot, span, g)->Ok_0.0;
    let op = Op::TupleGet(slot as u8);
    assert(code =~= load + seq![op]);
    lemma_placed(w, pc, load, seq![op]);
    dictionary_parameters_are_the_last_arguments(m, sig, i, span, out, args, w, pc, s, captures);
    assert(load.len() == 1);
    assert(w[pc + 1] == op);
    assert(s.push(d) =~= s + seq![d]);
    lemma_split(s, seq![d]);
    lemma_taking(m, w, pc + 1, s, seq![d], f, op, methods[slot as int]);
}

} // verus!
