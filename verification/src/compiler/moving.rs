//! Compiling against functions whose hashes have moved gives what moving the
//! hashes in the compiled code gives.

use vstd::prelude::*;

use crate::bytecode::{ConstantView, FunctionView, MethodView};
use crate::compiler::code::{
    all_referred, dependencies_are_referred, handler_constants, handler_targets, jump_distance,
    lowered, lowered_code, op_bytes, op_constants, op_skip, op_targets, size_upto, with_targets,
    Lowered, Op,
};
use crate::compiler::context::{lambda_hash, Produced, TablesView};
use crate::compiler::dicts::{built, built_under, function_of, Code, Gen};
use crate::compiler::error::ErrorView;
use crate::compiler::prelink::{moved, moved_constant, moved_function};
use crate::object::{object_hash, ObjectView, StoredValueView};

verus! {

// ── what moves ──────────────────────────────────────────────────────────────

/// The hash of the object of a value.
pub open spec fn value_hash(v: StoredValueView) -> Seq<u8> {
    object_hash(ObjectView::Value(v))
}

/// Whether a hash is of something that has no references and so cannot move: a
/// lambda's temporary one, or one of a constant's value.
pub open spec fn settled(t: TablesView, h: Seq<u8>) -> bool {
    ||| t.const_hashes.contains_value(h)
    ||| is_lambda_hash(h)
    ||| is_value(h)
}

/// Whether code that is compiled under some tables can refer to a hash.
pub open spec fn used(t: TablesView, h: Seq<u8>) -> bool {
    t.function_hashes.contains_value(h) || settled(t, h)
}

/// Whether hashes that are used move in an orderly way: what cannot move stays,
/// and what differs still differs.
pub open spec fn moves_well(r: Map<Seq<u8>, Seq<u8>>, t: TablesView) -> bool {
    &&& forall|h: Seq<u8>| #[trigger] settled(t, h) ==> !r.contains_key(h)
    &&& forall|a: Seq<u8>, b: Seq<u8>| #[trigger]
        used(t, a) && #[trigger] used(t, b) && moved(r, a) == moved(r, b) ==> a == b
}

/// What the hashes of functions become.
pub open spec fn moved_hashes<K>(r: Map<Seq<u8>, Seq<u8>>, m: Map<K, Seq<u8>>) -> Map<K, Seq<u8>> {
    m.map_values(|h: Seq<u8>| moved(r, h))
}

/// What tables become where the hashes of functions have moved.
pub open spec fn moved_tables(r: Map<Seq<u8>, Seq<u8>>, t: TablesView) -> TablesView {
    TablesView { function_hashes: moved_hashes(r, t.function_hashes), ..t }
}

/// What a reference to a method becomes.
pub open spec fn moved_method(r: Map<Seq<u8>, Seq<u8>>, m: MethodView) -> MethodView {
    MethodView {
        impl_fn: match m.impl_fn {
            Some(h) => Some(moved(r, h)),
            None => None,
        },
        ..m
    }
}

/// What the methods of a handler become.
pub open spec fn moved_arms(
    r: Map<Seq<u8>, Seq<u8>>,
    ms: Seq<(MethodView, Seq<u8>)>,
) -> Seq<(MethodView, Seq<u8>)> {
    Seq::new(ms.len(), |i: int| (moved_method(r, ms[i].0), moved(r, ms[i].1)))
}

/// What an instruction becomes.
pub open spec fn moved_op(r: Map<Seq<u8>, Seq<u8>>, op: Op) -> Op {
    match op {
        Op::Push(c) => Op::Push(moved_constant(r, c)),
        Op::Call(h, n) => Op::Call(moved(r, h), n),
        Op::TailCall(h, n) => Op::TailCall(moved(r, h), n),
        Op::MakeClosure(h, n) => Op::MakeClosure(moved(r, h), n),
        Op::Suspend(m, n) => Op::Suspend(moved_method(r, m), n),
        Op::MakeHandler(a, ms, n) => Op::MakeHandler(a, moved_arms(r, ms), n),
        _ => op,
    }
}

/// Whether an instruction refers only to what is used.
pub open spec fn covered(t: TablesView, op: Op) -> bool {
    &&& forall|k: int| 0 <= k < op_targets(op).len() ==> used(t, #[trigger] op_targets(op)[k])
    &&& op matches Op::LoadObject(h) ==> settled(t, h)
}

/// Whether code is other code with the hashes moved.
pub open spec fn matching(
    r: Map<Seq<u8>, Seq<u8>>,
    t: TablesView,
    a: Seq<Op>,
    b: Seq<Op>,
) -> bool {
    &&& a.len() == b.len()
    &&& forall|i: int|
        #![trigger a[i]]
        #![trigger b[i]]
        0 <= i < a.len() ==> b[i] == moved_op(r, a[i]) && covered(t, a[i])
}

/// Whether a function is another with the hashes moved. Its own hash may be any.
pub open spec fn moved_code(r: Map<Seq<u8>, Seq<u8>>, f: FunctionView, g: FunctionView) -> bool {
    (FunctionView { hash: g.hash, ..moved_function(r, f) }) == g
}

/// Whether a function is another with the hashes moved, and its constants refer to
/// what it depends on.
pub open spec fn moved_body(r: Map<Seq<u8>, Seq<u8>>, f: FunctionView, g: FunctionView) -> bool {
    &&& moved_code(r, f, g)
    &&& all_referred(f.constants, f.dependencies)
}

/// Whether a hash is the temporary one of a lambda.
pub open spec fn is_lambda_hash(h: Seq<u8>) -> bool {
    exists|n: u32| h == #[trigger] lambda_hash(n)
}

/// Whether compiled lambdas are others with the hashes moved.
pub open spec fn moved_lambdas(
    r: Map<Seq<u8>, Seq<u8>>,
    a: Seq<(Seq<u8>, Seq<char>, FunctionView)>,
    b: Seq<(Seq<u8>, Seq<char>, FunctionView)>,
) -> bool {
    &&& a.len() == b.len()
    &&& forall|i: int|
        #![trigger a[i]]
        #![trigger b[i]]
        0 <= i < a.len() ==> is_lambda_hash(a[i].0) && a[i].0 == b[i].0 && a[i].1 == b[i].1
            && moved_body(r, a[i].2, b[i].2)
}

/// Whether lambdas have the code of others with the hashes moved.
pub open spec fn moved_lambda_code(
    r: Map<Seq<u8>, Seq<u8>>,
    a: Seq<(Seq<u8>, Seq<char>, FunctionView)>,
    b: Seq<(Seq<u8>, Seq<char>, FunctionView)>,
) -> bool {
    &&& a.len() == b.len()
    &&& forall|i: int|
        #![trigger a[i]]
        #![trigger b[i]]
        0 <= i < a.len() ==> a[i].0 == b[i].0 && a[i].1 == b[i].1 && moved_code(
            r,
            a[i].2,
            b[i].2,
        )
}

/// Whether objects are those of constants.
pub open spec fn only_values(objects: Map<Seq<u8>, ObjectView>) -> bool {
    forall|h: Seq<u8>| #[trigger] objects.contains_key(h) ==> objects[h] is Value
}

/// Whether what was produced is the same but for the hashes that have moved, with
/// no objects but those of constants.
pub open spec fn moved_out(r: Map<Seq<u8>, Seq<u8>>, p: Produced, q: Produced) -> bool {
    &&& only_values(p.const_objects)
    &&& (Produced { lambdas: q.lambdas, ..p }) == q
    &&& moved_lambdas(r, p.lambdas, q.lambdas)
}

/// Whether a hash is one of a value.
pub open spec fn is_value(h: Seq<u8>) -> bool {
    exists|v: StoredValueView| h == #[trigger] value_hash(v)
}

/// Whether constants of blocks are values.
pub open spec fn all_values(s: Seq<(Seq<char>, Seq<u8>)>) -> bool {
    forall|i: int| 0 <= i < s.len() ==> is_value((#[trigger] s[i]).1)
}

/// Whether what was reached is the same but for the hashes that have moved.
pub open spec fn moved_gen(r: Map<Seq<u8>, Seq<u8>>, g: Gen, h: Gen) -> bool {
    g.scope == h.scope && all_values(g.scope.block_consts) && moved_out(r, g.out, h.out)
}

/// Whether code and what is reached behind it are the same but for the hashes
/// that have moved, or the same error.
pub open spec fn alike(r: Map<Seq<u8>, Seq<u8>>, t: TablesView, x: Code, y: Code) -> bool {
    match x {
        Err(e) => y == Code::Err(e),
        Ok((a, g)) => y matches Ok((b, h)) && matching(r, t, a, b) && moved_gen(r, g, h),
    }
}

pub(crate) broadcast proof fn lemma_matching_add(
    r: Map<Seq<u8>, Seq<u8>>,
    t: TablesView,
    a: Seq<Op>,
    b: Seq<Op>,
    c: Seq<Op>,
    d: Seq<Op>,
)
    requires
        matching(r, t, a, b),
        matching(r, t, c, d),
    ensures
        #[trigger] matching(r, t, a + c, b + d),
{
    assert forall|i: int| 0 <= i < (a + c).len() implies (b + d)[i] == moved_op(r, (a + c)[i])
        && covered(t, (a + c)[i]) by {
        if i < a.len() {
            assert(b[i] == moved_op(r, a[i]));
        } else {
            assert(d[i - a.len()] == moved_op(r, c[i - a.len()]));
        }
    }
}

pub(crate) broadcast proof fn lemma_matching_push(
    r: Map<Seq<u8>, Seq<u8>>,
    t: TablesView,
    a: Seq<Op>,
    b: Seq<Op>,
    x: Op,
    y: Op,
)
    requires
        matching(r, t, a, b),
        y == moved_op(r, x),
        covered(t, x),
    ensures
        #[trigger] matching(r, t, a.push(x), b.push(y)),
{
    assert forall|i: int| 0 <= i < a.push(x).len() implies b.push(y)[i] == moved_op(
        r,
        a.push(x)[i],
    ) && covered(t, a.push(x)[i]) by {
        if i < a.len() {
            assert(b[i] == moved_op(r, a[i]));
        }
    }
}

// ── lowering ────────────────────────────────────────────────────────────────

/// What hashes become.
pub open spec fn moved_all(r: Map<Seq<u8>, Seq<u8>>, s: Seq<Seq<u8>>) -> Seq<Seq<u8>> {
    Seq::new(s.len(), |i: int| moved(r, s[i]))
}

/// What constants become.
pub open spec fn moved_constants(
    r: Map<Seq<u8>, Seq<u8>>,
    s: Seq<ConstantView>,
) -> Seq<ConstantView> {
    Seq::new(s.len(), |i: int| moved_constant(r, s[i]))
}

/// What code as bytes becomes.
pub open spec fn moved_lowered(r: Map<Seq<u8>, Seq<u8>>, l: Lowered) -> Lowered {
    Lowered {
        constants: moved_constants(r, l.constants),
        dependencies: moved_all(r, l.dependencies),
        ..l
    }
}

proof fn lemma_op_bytes(r: Map<Seq<u8>, Seq<u8>>, op: Op, base: int, distance: int)
    ensures
        op_bytes(moved_op(r, op), base, distance) == op_bytes(op, base, distance),
        op_skip(moved_op(r, op)) == op_skip(op),
{
}

proof fn lemma_sizes(r: Map<Seq<u8>, Seq<u8>>, t: TablesView, a: Seq<Op>, b: Seq<Op>, k: int)
    requires
        matching(r, t, a, b),
        k <= a.len(),
    ensures
        size_upto(b, k) == size_upto(a, k),
    decreases k,
{
    if k > 0 {
        lemma_sizes(r, t, a, b, k - 1);
        assert(b[k - 1] == moved_op(r, a[k - 1]));
        lemma_op_bytes(r, a[k - 1], 0, 0);
    }
}

proof fn lemma_handler_constants(r: Map<Seq<u8>, Seq<u8>>, ms: Seq<(MethodView, Seq<u8>)>)
    ensures
        handler_constants(moved_arms(r, ms)) == moved_constants(r, handler_constants(ms)),
    decreases ms.len(),
{
    let x = moved_arms(r, ms);
    if ms.len() > 0 {
        lemma_handler_constants(r, ms.drop_last());
        assert(x.drop_last() =~= moved_arms(r, ms.drop_last()));
        assert(handler_constants(x) =~= moved_constants(r, handler_constants(ms)));
    } else {
        assert(handler_constants(x) =~= moved_constants(r, handler_constants(ms)));
    }
}

proof fn lemma_op_parts(r: Map<Seq<u8>, Seq<u8>>, t: TablesView, op: Op)
    requires
        moves_well(r, t),
        covered(t, op),
    ensures
        op_constants(moved_op(r, op)) == moved_constants(r, op_constants(op)),
        op_targets(moved_op(r, op)) == moved_all(r, op_targets(op)),
{
    let x = op_constants(moved_op(r, op));
    let y = moved_constants(r, op_constants(op));
    if let Op::MakeHandler(_, ms, _) = op {
        lemma_handler_constants(r, ms);
        assert(handler_targets(moved_arms(r, ms)) =~= moved_all(r, handler_targets(ms)));
    } else if let Op::LoadObject(h) = op {
        assert(settled(t, h));
        assert(x =~= y);
        assert(op_targets(moved_op(r, op)) =~= moved_all(r, op_targets(op)));
    } else {
        assert(x =~= y);
        assert(op_targets(moved_op(r, op)) =~= moved_all(r, op_targets(op)));
    }
}

/// Whether all of some hashes are used.
pub open spec fn all_used(t: TablesView, s: Seq<Seq<u8>>) -> bool {
    forall|i: int| 0 <= i < s.len() ==> used(t, #[trigger] s[i])
}

proof fn lemma_targets(
    r: Map<Seq<u8>, Seq<u8>>,
    t: TablesView,
    deps: Seq<Seq<u8>>,
    more: Seq<Seq<u8>>,
)
    requires
        moves_well(r, t),
        all_used(t, deps),
        all_used(t, more),
    ensures
        with_targets(moved_all(r, deps), moved_all(r, more)) == moved_all(
            r,
            with_targets(deps, more),
        ),
        all_used(t, with_targets(deps, more)),
    decreases more.len(),
{
    if more.len() > 0 {
        let rest = more.drop_last();
        let last = more.last();
        assert(all_used(t, rest)) by {
            assert forall|i: int| 0 <= i < rest.len() implies used(t, #[trigger] rest[i]) by {
                assert(used(t, more[i]));
            }
        }
        assert(used(t, more[more.len() - 1]));
        lemma_targets(r, t, deps, rest);
        assert(moved_all(r, more).drop_last() =~= moved_all(r, rest));
        let before = with_targets(deps, rest);
        let after = moved_all(r, before);
        if before.contains(last) {
            let i = before.index_of(last);
            assert(after[i] == moved(r, last));
        } else {
            if after.contains(moved(r, last)) {
                let i = after.index_of(moved(r, last));
                assert(used(t, before[i]));
                assert(used(t, last));
                assert(before[i] == last);
                assert(false);
            }
            assert(after.push(moved(r, last)) =~= moved_all(r, before.push(last)));
        }
    } else {
        assert(moved_all(r, more) =~= seq![]);
    }
}

proof fn lemma_lowered_prefix(
    r: Map<Seq<u8>, Seq<u8>>,
    t: TablesView,
    a: Seq<Op>,
    b: Seq<Op>,
    k: int,
)
    requires
        moves_well(r, t),
        matching(r, t, a, b),
        0 <= k <= a.len(),
    ensures
        lowered(b, k) == moved_lowered(r, lowered(a, k)),
        all_used(t, lowered(a, k).dependencies),
    decreases k,
{
    let x = lowered(a, k);
    let y = lowered(b, k);
    if k > 0 {
        let before = lowered(a, k - 1);
        let op = a[k - 1];
        lemma_lowered_prefix(r, t, a, b, k - 1);
        assert(b[k - 1] == moved_op(r, op));
        lemma_op_parts(r, t, op);
        assert(all_used(t, op_targets(op)));
        lemma_targets(r, t, before.dependencies, op_targets(op));
        let to = k + op_skip(op);
        lemma_sizes(r, t, a, b, k);
        lemma_sizes(
            r,
            t,
            a,
            b,
            if to > a.len() {
                a.len() as int
            } else {
                to
            },
        );
        lemma_op_bytes(r, op, 0, 0);
        assert(jump_distance(b, k - 1) == jump_distance(a, k - 1));
        lemma_op_bytes(r, op, before.constants.len() as int, jump_distance(a, k - 1));
        assert(y.constants =~= moved_constants(r, x.constants));
    } else {
        assert(y.constants =~= moved_constants(r, x.constants));
        assert(y.dependencies =~= moved_all(r, x.dependencies));
    }
}

/// Functions of code with the hashes moved are functions with the hashes moved.
pub(crate) proof fn lemma_lowered(r: Map<Seq<u8>, Seq<u8>>, t: TablesView, a: Seq<Op>, b: Seq<Op>)
    requires
        moves_well(r, t),
        matching(r, t, a, b),
    ensures
        match lowered_code(a) {
            Ok(l) => lowered_code(b) == Ok::<Lowered, ErrorView>(moved_lowered(r, l)),
            Err(e) => lowered_code(b) == Err::<Lowered, ErrorView>(e),
        },
{
    lemma_lowered_prefix(r, t, a, b, a.len() as int);
}

/// Whether a function is another with the hashes moved, or the same error.
pub open spec fn moved_built(
    r: Map<Seq<u8>, Seq<u8>>,
    x: Result<FunctionView, ErrorView>,
    y: Result<FunctionView, ErrorView>,
) -> bool {
    match x {
        Ok(f) => y matches Ok(g) && moved_body(r, f, g),
        Err(e) => y == Err::<FunctionView, ErrorView>(e),
    }
}

pub(crate) proof fn lemma_built(
    r: Map<Seq<u8>, Seq<u8>>,
    t: TablesView,
    a: Seq<Op>,
    b: Seq<Op>,
    locals: u16,
    params: u8,
    hash: Seq<u8>,
)
    requires
        moves_well(r, t),
        matching(r, t, a, b),
    ensures
        moved_built(r, built(a, locals, params), built(b, locals, params)),
        moved_built(
            r,
            built_under(a, locals, params, hash),
            built_under(b, locals, params, hash),
        ),
{
    lemma_lowered(r, t, a, b);
    dependencies_are_referred(a);
    if let Ok(l) = lowered_code(a) {
        let f = function_of(l, locals, params, hash);
        let g = function_of(moved_lowered(r, l), locals, params, hash);
        assert(moved_function(r, f) == g);
        let f = function_of(l, locals, params, seq![]);
        let g = function_of(moved_lowered(r, l), locals, params, seq![]);
        assert(moved_function(r, f) == g);
        assert forall|i: int| 0 <= i < l.constants.len() implies (#[trigger] f.constants[i]
            == ConstantView::Runtime) == (g.constants[i] == ConstantView::Runtime) by {}
        assert(crate::object::storable(f) == crate::object::storable(g)) by {
            if crate::object::storable(f) {
                assert forall|i: int| 0 <= i < g.constants.len() implies (#[trigger] g.constants[i])
                    != ConstantView::Runtime by {
                    assert(f.constants[i] != ConstantView::Runtime);
                }
            }
            if crate::object::storable(g) {
                assert forall|i: int| 0 <= i < f.constants.len() implies (#[trigger] f.constants[i])
                    != ConstantView::Runtime by {
                    assert(g.constants[i] != ConstantView::Runtime);
                }
            }
        }
    }
}

} // verus!
