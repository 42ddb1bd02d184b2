//! Dictionaries for bounded generics.
//!
//! A call whose callee has trait bounds supplies one dictionary for each bound:
//! a tuple of an impl's methods, a dictionary that the caller was given itself,
//! or a tuple of closures over the dictionaries that a conditional impl needs.

use vstd::prelude::*;

use crate::ast::{DictMethod, DictSource, Dicts, Span};
use crate::bytecode::{CompiledFunction, Constant, ConstantView, FunctionView};
use crate::compiler::code::{lower, lowered_code, ops, Instr, Lowered, Op, Opcode};
use crate::compiler::context::{
    assoc_get, capture_slot, function_hash, is_parent_name, lambda_hash, with_capture, with_lambda,
    FunctionCompiler, ModuleContext, ModuleTables, Produced, Scope, TablesView,
};
use crate::compiler::error::{CompileError, ErrorView, KindView};
use crate::digest::Digest;
use crate::fqn::KeyView;
use crate::object::{
    function_from_compiled, object_hash, storable, stored_function, subst_view, ObjectRef,
    ObjectView, StoredObject,
};
use crate::ordmap::OrdMap;
use crate::text::{decimal_text, owned, push_decimal, push_text};
use crate::types::Type;

verus! {

broadcast use {vstd::string::group_string_axioms, vstd::array::group_array_axioms};

/// What compilation has reached: the bindings in scope, and what was produced.
pub struct Gen {
    /// The bindings in scope.
    pub scope: Scope,
    /// What was produced besides code.
    pub out: Produced,
}

/// The code of a part of the source and what is reached behind it, or an error.
pub type Code = Result<(Seq<Op>, Gen), ErrorView>;

/// Code behind other code.
pub open spec fn after(first: Seq<Op>, rest: Code) -> Code {
    match rest {
        Ok((code, g)) => Ok((first + code, g)),
        Err(e) => Err(e),
    }
}

/// Code with an instruction behind it.
pub open spec fn followed(first: Code, op: Op) -> Code {
    match first {
        Ok((code, g)) => Ok((code.push(op), g)),
        Err(e) => Err(e),
    }
}

/// An error of a kind at a place.
pub open spec fn error_at(kind: KindView, span: Span) -> ErrorView {
    ErrorView { kind, span: span.pair() }
}

/// A broken invariant of the compiler at a place.
pub open spec fn internal_at(message: Seq<char>, span: Span) -> ErrorView {
    error_at(KindView::Internal { message }, span)
}

/// Whether a function did what it should: on success it appended the code and
/// reached the state, else it gave the error.
pub open spec fn compiled(
    want: Code,
    before: Seq<Op>,
    r: Result<(), CompileError>,
    fc: FunctionCompiler,
    ctx: ModuleContext,
) -> bool {
    match want {
        Ok((code, g)) => r is Ok && fc.ops() == before + code && fc.scope() == g.scope && ctx@
            == g.out,
        Err(e) => r matches Err(f) && f@ == e,
    }
}

/// What compilation has reached.
pub open spec fn reached(fc: FunctionCompiler, ctx: ModuleContext) -> Gen {
    Gen { scope: fc.scope(), out: ctx@ }
}

// ── functions of code ───────────────────────────────────────────────────────

/// A function of code under a hash, without debug information.
pub open spec fn function_of(l: Lowered, locals: u16, params: u8, hash: Seq<u8>) -> FunctionView {
    FunctionView {
        hash,
        bytecode: l.bytecode,
        constants: l.constants,
        local_count: locals,
        param_count: params,
        dependencies: l.dependencies,
        debug: None,
    }
}

/// A function of code under a hash.
pub open spec fn built_under(code: Seq<Op>, locals: u16, params: u8, hash: Seq<u8>) -> Result<
    FunctionView,
    ErrorView,
> {
    match lowered_code(code) {
        Ok(l) => Ok(function_of(l, locals, params, hash)),
        Err(e) => Err(e),
    }
}

/// The hash of a function that stands by itself.
pub open spec fn own_hash(f: FunctionView) -> Seq<u8> {
    object_hash(ObjectView::Plain(stored_function(f, Map::empty())))
}

/// A function of code under the hash of its own contents.
pub open spec fn built(code: Seq<Op>, locals: u16, params: u8) -> Result<FunctionView, ErrorView> {
    match lowered_code(code) {
        Ok(l) => {
            let f = function_of(l, locals, params, seq![]);
            if storable(f) {
                Ok(FunctionView { hash: own_hash(f), ..f })
            } else {
                Err(
                    ErrorView {
                        kind: KindView::Internal {
                            message: "constant pool value cannot be content-addressed"@,
                        },
                        span: (0, 0),
                    },
                )
            }
        },
        Err(e) => Err(e),
    }
}

/// A function of code under a hash.
pub fn build_under(code: &Vec<Instr>, locals: u16, params: u8, hash: Digest) -> (r: Result<
    CompiledFunction,
    CompileError,
>)
    ensures
        match built_under(ops(code@), locals, params, hash@) {
            Ok(f) => r matches Ok(c) && c@ == f,
            Err(e) => r matches Err(x) && x@ == e,
        },
{
    let l = lower(code)?;
    Ok(
        CompiledFunction {
            hash,
            bytecode: l.bytecode,
            constants: l.constants,
            local_count: locals,
            param_count: params,
            dependencies: l.dependencies,
            debug_info: None,
        },
    )
}

/// A function of code under the hash of its own contents.
pub fn build(code: &Vec<Instr>, locals: u16, params: u8) -> (r: Result<
    CompiledFunction,
    CompileError,
>)
    ensures
        match built(ops(code@), locals, params) {
            Ok(f) => r matches Ok(c) && c@ == f,
            Err(e) => r matches Err(x) && x@ == e,
        },
{
    let l = lower(code)?;
    let mut f = CompiledFunction {
        hash: Digest { bytes: [0u8; 32] },
        bytecode: l.bytecode,
        constants: l.constants,
        local_count: locals,
        param_count: params,
        dependencies: l.dependencies,
        debug_info: None,
    };
    let none: OrdMap<Digest, ObjectRef> = OrdMap::new();
    assert(subst_view(none@) =~= Map::empty());
    let ghost g = function_of(l@, locals, params, seq![]);
    assert(stored_function(f@, Map::empty()) == stored_function(g, Map::empty()));
    match function_from_compiled(&f, &none) {
        Ok(stored) => {
            let object = StoredObject::Plain(stored);
            f.hash = object.hash();
            Ok(f)
        },
        Err(_) => Err(
            CompileError::internal("constant pool value cannot be content-addressed", (0, 0)),
        ),
    }
}

// ── dictionaries ────────────────────────────────────────────────────────────

/// The name under which a function's dictionary parameter is in scope.
pub open spec fn dict_name(index: nat) -> Seq<char> {
    "<dict "@ + decimal_text(index) + ">"@
}

/// The name under which a function's dictionary parameter is in scope.
pub fn dict_capture_name(index: usize) -> (r: String)
    ensures
        r@ == dict_name(index as nat),
{
    let mut out = owned("<dict ");
    push_decimal(&mut out, index as u64);
    push_text(&mut out, ">");
    out
}

/// Code that pushes a dictionary parameter: a local, or a captured value in a
/// closure.
pub open spec fn load_dict_code(index: nat, span: Span, g: Gen) -> Code {
    let name = dict_name(index);
    let s = g.scope;
    if let Some(slot) = assoc_get(s.local_names, name) {
        Ok((seq![Op::LoadLocal(slot)], g))
    } else if assoc_get(s.capture_names, name) is Some || is_parent_name(s, name) {
        Ok(
            (
                seq![Op::LoadCapture(capture_slot(s, name))],
                Gen { scope: with_capture(s, name), ..g },
            ),
        )
    } else {
        Err(
            error_at(
                KindView::Unsupported {
                    feature: "using a trait-bound dictionary that is not in scope"@,
                },
                span,
            ),
        )
    }
}

/// The code of a dictionary slot of a conditional impl: it calls the method with
/// the value arguments, then the captured dictionaries, then the dictionaries
/// that the method itself takes.
pub open spec fn slot_code(method: Seq<u8>, arity: nat, captured: nat, own: nat) -> Seq<Op> {
    Seq::new(arity, |i: int| Op::LoadLocal(i as u16)) + Seq::new(
        captured,
        |i: int| Op::LoadCapture(i as u16),
    ) + Seq::new(own, |i: int| Op::LoadLocal((arity + i) as u16)) + seq![
        Op::Call(method, (arity + captured + own) as u8),
        Op::Plain(Opcode::Return),
    ]
}

/// The function of a dictionary slot of a conditional impl.
pub open spec fn slot_function(method: Seq<u8>, arity: nat, captured: nat, own: nat) -> Result<
    FunctionView,
    ErrorView,
> {
    built(slot_code(method, arity, captured, own), (arity + own) as u16, (arity + own) as u8)
}

/// Code that pushes the methods of an impl.
pub open spec fn symbols_code(t: TablesView, symbols: Seq<String>, span: Span) -> Result<
    Seq<Op>,
    ErrorView,
>
    decreases symbols.len(),
{
    if symbols.len() == 0 {
        Ok(seq![])
    } else {
        match symbols_code(t, symbols.drop_last(), span) {
            Err(e) => Err(e),
            Ok(code) => match function_hash(t, KeyView::Bare(symbols.last()@)) {
                Some(h) => Ok(code.push(Op::Push(ConstantView::Function(h)))),
                None => Err(
                    error_at(KindView::UndefinedFunction { name: symbols.last()@ }, span),
                ),
            },
        }
    }
}

/// Code that pushes a dictionary.
pub open spec fn dict_code(t: TablesView, source: DictSource, span: Span, g: Gen) -> Code
    decreases source, 1int, 0int,
{
    match source {
        DictSource::Impl { symbols } => match symbols_code(t, symbols@, span) {
            Ok(code) => Ok((code.push(Op::MakeTuple(symbols@.len() as u8)), g)),
            Err(e) => Err(e),
        },
        DictSource::Param { dict_index } => load_dict_code(dict_index as nat, span, g),
        DictSource::Generic { methods, inner } => followed(
            slots_code(t, methods@, inner@, methods@.len(), span, g),
            Op::MakeTuple(methods@.len() as u8),
        ),
    }
}

/// Code that pushes dictionaries, in order.
pub open spec fn sources_code(
    t: TablesView,
    sources: Seq<DictSource>,
    span: Span,
    g: Gen,
) -> Code
    decreases sources, 0int, sources.len(),
{
    if sources.len() == 0 {
        Ok((seq![], g))
    } else {
        match sources_code(t, sources.drop_last(), span, g) {
            Err(e) => Err(e),
            Ok((code, h)) => after(code, dict_code(t, sources.last(), span, h)),
        }
    }
}

/// Code that makes the closures of the first `k` methods of a conditional impl.
pub open spec fn slots_code(
    t: TablesView,
    methods: Seq<DictMethod>,
    inner: Seq<DictSource>,
    k: nat,
    span: Span,
    g: Gen,
) -> Code
    decreases inner, 1int, k,
{
    if k == 0 {
        Ok((seq![], g))
    } else {
        let m = methods[k - 1];
        match slots_code(t, methods, inner, (k - 1) as nat, span, g) {
            Err(e) => Err(e),
            Ok((code, h)) => match function_hash(t, KeyView::Bare(m.symbol@)) {
                None => Err(error_at(KindView::UndefinedFunction { name: m.symbol@ }, span)),
                Some(hash) => match slot_function(
                    hash,
                    m.arity as nat,
                    inner.len(),
                    m.method_dict_count as nat,
                ) {
                    Err(e) => Err(e),
                    Ok(f) => after(
                        code,
                        followed(
                            sources_code(
                                t,
                                inner,
                                span,
                                Gen { out: with_lambda(h.out, f), ..h },
                            ),
                            Op::MakeClosure(lambda_hash(h.out.counter), inner.len() as u8),
                        ),
                    ),
                },
            },
        }
    }
}

/// Code that pushes the dictionaries that a call supplies.
pub open spec fn dicts_code(t: TablesView, dicts: Option<Dicts>, span: Span, g: Gen) -> Code {
    match dicts {
        None => Ok((seq![], g)),
        Some(Dicts::Resolved(sources)) => sources_code(t, sources@, span, g),
        Some(Dicts::Pending(_)) => Err(
            internal_at(
                "unsolved dictionary constraints reached compilation (checker bug)"@,
                span,
            ),
        ),
    }
}

/// The number of dictionaries that a call supplies.
pub open spec fn dict_count(dicts: Option<Dicts>) -> nat {
    match dicts {
        Some(Dicts::Resolved(sources)) => sources@.len(),
        _ => 0,
    }
}

/// Code that makes a value of a bounded generic function: a closure that
/// captures its dictionaries.
pub open spec fn bounded_value_code(
    t: TablesView,
    function: Seq<u8>,
    ty: Option<Type>,
    sources: Seq<DictSource>,
    span: Span,
    g: Gen,
) -> Code {
    match ty {
        Some(Type::Function(params, _)) => match slot_function(
            function,
            params@.len(),
            sources.len(),
            0,
        ) {
            Err(e) => Err(e),
            Ok(f) => followed(
                sources_code(t, sources, span, Gen { out: with_lambda(g.out, f), ..g }),
                Op::MakeClosure(lambda_hash(g.out.counter), sources.len() as u8),
            ),
        },
        _ => Err(
            internal_at(
                "bounded generic used as a value lacks a function type (checker bug)"@,
                span,
            ),
        ),
    }
}

// ── emitting the code ───────────────────────────────────────────────────────

impl FunctionCompiler {
    /// Push a dictionary parameter.
    pub fn emit_load_dict(&mut self, index: usize, span: Span, ctx: &ModuleContext) -> (r: Result<
        (),
        CompileError,
    >)
        ensures
            compiled(
                load_dict_code(index as nat, span, reached(*old(self), *ctx)),
                old(self).ops(),
                r,
                *final(self),
                *ctx,
            ),
    {
        let name = dict_capture_name(index);
        let ghost start = self.ops();
        if let Some(slot) = self.get_local_by_name(name.as_str()) {
            self.emit(Instr::LoadLocal(slot));
            assert(self.ops() =~= start + seq![Op::LoadLocal(slot)]);
            return Ok(());
        }
        if self.capture_names.get(name.as_str()).is_some() || self.is_parent_name(name.as_str()) {
            let slot: u16 = self.get_or_create_capture_by_name(name.as_str());
            self.emit(Instr::LoadCapture(slot));
            assert(self.ops() =~= start + seq![Op::LoadCapture(slot)]);
            return Ok(());
        }
        Err(
            CompileError::unsupported(
                owned("using a trait-bound dictionary that is not in scope"),
                span.as_pair(),
            ),
        )
    }
}

/// The function of a dictionary slot of a conditional impl.
fn build_dict_slot_closure(method: Digest, arity: usize, captured: usize, own: usize) -> (r: Result<
    CompiledFunction,
    CompileError,
>)
    ensures
        match slot_function(method@, arity as nat, captured as nat, own as nat) {
            Ok(f) => r matches Ok(c) && c@ == f,
            Err(e) => r matches Err(x) && x@ == e,
        },
{
    let ghost want = slot_code(method@, arity as nat, captured as nat, own as nat);
    let mut code: Vec<Instr> = Vec::new();
    let mut i: usize = 0;
    while i < arity
        invariant
            i <= arity,
            code@.len() == i,
            forall|k: int| 0 <= k < i ==> (#[trigger] code@[k])@ == Op::LoadLocal(k as u16),
        decreases arity - i,
    {
        code.push(Instr::LoadLocal(i as u16));
        i = i + 1;
    }
    let ghost first = ops(code@);
    assert(first =~= Seq::new(arity as nat, |i: int| Op::LoadLocal(i as u16)));
    let mut j: usize = 0;
    while j < captured
        invariant
            j <= captured,
            first.len() == arity,
            code@.len() == arity + j,
            forall|k: int| 0 <= k < arity ==> (#[trigger] code@[k])@ == first[k],
            forall|k: int|
                arity <= k < arity + j ==> (#[trigger] code@[k])@ == Op::LoadCapture(
                    (k - arity) as u16,
                ),
        decreases captured - j,
    {
        code.push(Instr::LoadCapture(j as u16));
        j = j + 1;
    }
    let ghost second = ops(code@);
    assert(second =~= first + Seq::new(captured as nat, |i: int| Op::LoadCapture(i as u16)));
    let mut m: usize = 0;
    while m < own
        invariant
            m <= own,
            second.len() == arity + captured,
            code@.len() == arity + captured + m,
            forall|k: int| 0 <= k < arity + captured ==> (#[trigger] code@[k])@ == second[k],
            forall|k: int|
                arity + captured <= k < arity + captured + m ==> (#[trigger] code@[k])@
                    == Op::LoadLocal((arity + (k - arity - captured)) as u16),
        decreases own - m,
    {
        let slot: u16 = (arity as u128 + m as u128) as u16;
        code.push(Instr::LoadLocal(slot));
        m = m + 1;
    }
    let ghost third = ops(code@);
    assert(third =~= second + Seq::new(own as nat, |i: int| Op::LoadLocal((arity + i) as u16)));
    let total: u128 = arity as u128 + captured as u128 + own as u128;
    code.push(Instr::Call(method, total as u8));
    code.push(Instr::Plain(Opcode::Return));
    assert(ops(code@) =~= want);
    let locals: u128 = arity as u128 + own as u128;
    build(&code, locals as u16, locals as u8)
}

/// Push the methods of an impl.
fn compile_symbols(
    t: &ModuleTables,
    fc: &mut FunctionCompiler,
    symbols: &Vec<String>,
    span: Span,
) -> (r: Result<(), CompileError>)
    ensures
        final(fc).scope() == old(fc).scope(),
        match symbols_code(t@, symbols@, span) {
            Ok(code) => r is Ok && final(fc).ops() == old(fc).ops() + code,
            Err(e) => r matches Err(f) && f@ == e,
        },
{
    let ghost start = fc.ops();
    let ghost scope = fc.scope();
    let mut i: usize = 0;
    assert(symbols@.take(0) =~= seq![]);
    assert(start + seq![] =~= start);
    while i < symbols.len()
        invariant
            i <= symbols@.len(),
            scope == old(fc).scope(),
            start == old(fc).ops(),
            fc.scope() == scope,
            symbols_code(t@, symbols@.take(i as int), span) matches Ok(code) && fc.ops() == start
                + code,
        decreases symbols@.len() - i,
    {
        assert(symbols@.take(i + 1).drop_last() =~= symbols@.take(i as int));
        proof {
            if symbols_code(t@, symbols@.take(i + 1), span) is Err {
                lemma_symbols_fault_stays(t@, symbols@, span, i + 1);
            }
        }
        let ghost done = symbols_code(t@, symbols@.take(i as int), span)->Ok_0;
        match t.symbol_hash(symbols[i].as_str()) {
            Some(h) => {
                fc.emit(Instr::Push(Constant::Function(h)));
                assert(fc.ops() =~= start + done.push(Op::Push(ConstantView::Function(h@))));
            },
            None => {
                return Err(
                    CompileError::undefined_function(symbols[i].as_str(), span.as_pair()),
                );
            },
        }
        i = i + 1;
    }
    assert(symbols@.take(symbols@.len() as int) =~= symbols@);
    Ok(())
}

proof fn lemma_symbols_fault_stays(t: TablesView, symbols: Seq<String>, span: Span, k: int)
    requires
        0 <= k <= symbols.len(),
        symbols_code(t, symbols.take(k), span) is Err,
    ensures
        symbols_code(t, symbols, span) == symbols_code(t, symbols.take(k), span),
    decreases symbols.len() - k,
{
    if k < symbols.len() {
        assert(symbols.take(k + 1).drop_last() =~= symbols.take(k));
        lemma_symbols_fault_stays(t, symbols, span, k + 1);
    } else {
        assert(symbols.take(k) =~= symbols);
    }
}

proof fn lemma_sources_fault_stays(
    t: TablesView,
    sources: Seq<DictSource>,
    span: Span,
    g: Gen,
    k: int,
)
    requires
        0 <= k <= sources.len(),
        sources_code(t, sources.take(k), span, g) is Err,
    ensures
        sources_code(t, sources, span, g) == sources_code(t, sources.take(k), span, g),
    decreases sources.len() - k,
{
    if k < sources.len() {
        assert(sources.take(k + 1).drop_last() =~= sources.take(k));
        lemma_sources_fault_stays(t, sources, span, g, k + 1);
    } else {
        assert(sources.take(k) =~= sources);
    }
}

proof fn lemma_slots_fault_stays(
    t: TablesView,
    methods: Seq<DictMethod>,
    inner: Seq<DictSource>,
    span: Span,
    g: Gen,
    k: nat,
    n: nat,
)
    requires
        k <= n,
        slots_code(t, methods, inner, k, span, g) is Err,
    ensures
        slots_code(t, methods, inner, n, span, g) == slots_code(t, methods, inner, k, span, g),
    decreases n - k,
{
    if k < n {
        lemma_slots_fault_stays(t, methods, inner, span, g, k + 1, n);
    }
}

/// Push a dictionary.
fn compile_dict_source(
    t: &ModuleTables,
    fc: &mut FunctionCompiler,
    source: &DictSource,
    span: Span,
    ctx: &mut ModuleContext,
) -> (r: Result<(), CompileError>)
    ensures
        compiled(
            dict_code(t@, *source, span, reached(*old(fc), *old(ctx))),
            old(fc).ops(),
            r,
            *final(fc),
            *final(ctx),
        ),
    decreases *source, 1int, 0int,
{
    let ghost start = fc.ops();
    match source {
        DictSource::Impl { symbols } => {
            compile_symbols(t, fc, symbols, span)?;
            fc.emit(Instr::MakeTuple(symbols.len() as u8));
            proof {
                let code = symbols_code(t@, symbols@, span)->Ok_0;
                assert(fc.ops() =~= start + code.push(Op::MakeTuple(symbols@.len() as u8)));
            }
            Ok(())
        },
        DictSource::Param { dict_index } => fc.emit_load_dict(*dict_index, span, ctx),
        DictSource::Generic { methods, inner } => {
            let ghost g = reached(*fc, *ctx);
            compile_slots(t, fc, methods, inner, methods.len(), span, ctx)?;
            fc.emit(Instr::MakeTuple(methods.len() as u8));
            proof {
                let code = slots_code(t@, methods@, inner@, methods@.len(), span, g)->Ok_0.0;
                assert(fc.ops() =~= start + code.push(Op::MakeTuple(methods@.len() as u8)));
            }
            Ok(())
        },
    }
}

/// Push dictionaries, in order.
fn compile_sources(
    t: &ModuleTables,
    fc: &mut FunctionCompiler,
    sources: &Vec<DictSource>,
    span: Span,
    ctx: &mut ModuleContext,
) -> (r: Result<(), CompileError>)
    ensures
        compiled(
            sources_code(t@, sources@, span, reached(*old(fc), *old(ctx))),
            old(fc).ops(),
            r,
            *final(fc),
            *final(ctx),
        ),
    decreases sources@, 0int, sources@.len(),
{
    let ghost start = fc.ops();
    let ghost g = reached(*fc, *ctx);
    let mut i: usize = 0;
    assert(sources@.take(0) =~= seq![]);
    assert(start + seq![] =~= start);
    while i < sources.len()
        invariant
            i <= sources@.len(),
            g == reached(*old(fc), *old(ctx)),
            start == old(fc).ops(),
            sources_code(t@, sources@.take(i as int), span, g) matches Ok((code, h)) && fc.ops()
                == start + code && reached(*fc, *ctx) == h,
        decreases sources@.len() - i,
    {
        assert(sources@.take(i + 1).drop_last() =~= sources@.take(i as int));
        proof {
            if sources_code(t@, sources@.take(i + 1), span, g) is Err {
                lemma_sources_fault_stays(t@, sources@, span, g, i + 1);
            }
            assert(decreases_to!(sources@ => sources@[i as int]));
        }
        let ghost done = sources_code(t@, sources@.take(i as int), span, g)->Ok_0;
        compile_dict_source(t, fc, &sources[i], span, ctx)?;
        proof {
            let (code, h) = dict_code(t@, sources@[i as int], span, done.1)->Ok_0;
            assert(start + done.0 + code =~= start + (done.0 + code));
        }
        i = i + 1;
    }
    assert(sources@.take(sources@.len() as int) =~= sources@);
    Ok(())
}

/// Make the closures of the first `n` methods of a conditional impl.
fn compile_slots(
    t: &ModuleTables,
    fc: &mut FunctionCompiler,
    methods: &Vec<DictMethod>,
    inner: &Vec<DictSource>,
    n: usize,
    span: Span,
    ctx: &mut ModuleContext,
) -> (r: Result<(), CompileError>)
    requires
        n <= methods@.len(),
    ensures
        compiled(
            slots_code(t@, methods@, inner@, n as nat, span, reached(*old(fc), *old(ctx))),
            old(fc).ops(),
            r,
            *final(fc),
            *final(ctx),
        ),
    decreases inner@, 1int, n,
{
    let ghost start = fc.ops();
    let ghost g = reached(*fc, *ctx);
    let mut k: usize = 0;
    assert(start + seq![] =~= start);
    while k < n
        invariant
            k <= n <= methods@.len(),
            g == reached(*old(fc), *old(ctx)),
            start == old(fc).ops(),
            slots_code(t@, methods@, inner@, k as nat, span, g) matches Ok((code, h)) && fc.ops()
                == start + code && reached(*fc, *ctx) == h,
        decreases n - k,
    {
        proof {
            if slots_code(t@, methods@, inner@, (k + 1) as nat, span, g) is Err {
                lemma_slots_fault_stays(t@, methods@, inner@, span, g, (k + 1) as nat, n as nat);
            }
        }
        let ghost done = slots_code(t@, methods@, inner@, k as nat, span, g)->Ok_0;
        let m = &methods[k];
        let hash = match t.symbol_hash(m.symbol.as_str()) {
            Some(h) => h,
            None => {
                return Err(CompileError::undefined_function(m.symbol.as_str(), span.as_pair()));
            },
        };
        let closure = build_dict_slot_closure(hash, m.arity, inner.len(), m.method_dict_count)?;
        let ghost f = closure@;
        let closure_hash = ctx.register_lambda(closure);
        let ghost mid = reached(*fc, *ctx);
        compile_sources(t, fc, inner, span, ctx)?;
        fc.emit(Instr::MakeClosure(closure_hash, inner.len() as u8));
        proof {
            assert(mid == (Gen { out: with_lambda(done.1.out, f), ..done.1 }));
            let (code, h) = sources_code(t@, inner@, span, mid)->Ok_0;
            let op = Op::MakeClosure(closure_hash@, inner@.len() as u8);
            assert(fc.ops() =~= start + (done.0 + code.push(op)));
        }
        k = k + 1;
    }
    Ok(())
}

/// Push the dictionaries that a call supplies, and say how many there are.
pub fn compile_dicts(
    t: &ModuleTables,
    fc: &mut FunctionCompiler,
    dicts: &Option<Dicts>,
    span: Span,
    ctx: &mut ModuleContext,
) -> (r: Result<usize, CompileError>)
    ensures
        match dicts_code(t@, *dicts, span, reached(*old(fc), *old(ctx))) {
            Ok((code, g)) => r matches Ok(n) && n == dict_count(*dicts) && final(fc).ops() == old(
                fc,
            ).ops() + code && reached(*final(fc), *final(ctx)) == g,
            Err(e) => r matches Err(f) && f@ == e,
        },
{
    match dicts {
        None => {
            assert(fc.ops() + seq![] =~= fc.ops());
            Ok(0)
        },
        Some(Dicts::Resolved(sources)) => {
            compile_sources(t, fc, sources, span, ctx)?;
            Ok(sources.len())
        },
        Some(Dicts::Pending(_)) => Err(
            CompileError::internal(
                "unsolved dictionary constraints reached compilation (checker bug)",
                span.as_pair(),
            ),
        ),
    }
}

/// Make a value of a bounded generic function.
pub fn compile_bounded_value_ref(
    t: &ModuleTables,
    fc: &mut FunctionCompiler,
    function: Digest,
    ty: &Option<Type>,
    sources: &Vec<DictSource>,
    span: Span,
    ctx: &mut ModuleContext,
) -> (r: Result<(), CompileError>)
    ensures
        compiled(
            bounded_value_code(
                t@,
                function@,
                *ty,
                sources@,
                span,
                reached(*old(fc), *old(ctx)),
            ),
            old(fc).ops(),
            r,
            *final(fc),
            *final(ctx),
        ),
{
    let ghost start = fc.ops();
    let ghost g = reached(*fc, *ctx);
    let arity: usize = match ty {
        Some(Type::Function(params, _)) => params.len(),
        _ => {
            return Err(
                CompileError::internal(
                    "bounded generic used as a value lacks a function type (checker bug)",
                    span.as_pair(),
                ),
            );
        },
    };
    let closure = build_dict_slot_closure(function, arity, sources.len(), 0)?;
    let ghost f = closure@;
    let closure_hash = ctx.register_lambda(closure);
    let ghost mid = reached(*fc, *ctx);
    compile_sources(t, fc, sources, span, ctx)?;
    fc.emit(Instr::MakeClosure(closure_hash, sources.len() as u8));
    proof {
        assert(mid == (Gen { out: with_lambda(g.out, f), ..g }));
        let (code, h) = sources_code(t@, sources@, span, mid)->Ok_0;
        let op = Op::MakeClosure(closure_hash@, sources@.len() as u8);
        assert(fc.ops() =~= start + code.push(op));
    }
    Ok(())
}

/// Code that pushes a bound method: a slot of a dictionary parameter.
pub open spec fn dict_method_code(index: nat, slot: nat, span: Span, g: Gen) -> Code {
    followed(load_dict_code(index, span, g), Op::TupleGet(slot as u8))
}

/// Push a bound method.
pub fn emit_dict_method(
    fc: &mut FunctionCompiler,
    index: usize,
    slot: usize,
    span: Span,
    ctx: &ModuleContext,
) -> (r: Result<(), CompileError>)
    ensures
        compiled(
            dict_method_code(index as nat, slot as nat, span, reached(*old(fc), *ctx)),
            old(fc).ops(),
            r,
            *final(fc),
            *ctx,
        ),
{
    let ghost start = fc.ops();
    let ghost g = reached(*fc, *ctx);
    fc.emit_load_dict(index, span, ctx)?;
    fc.emit(Instr::TupleGet(slot as u8));
    proof {
        let code = load_dict_code(index as nat, span, g)->Ok_0.0;
        assert(fc.ops() =~= start + code.push(Op::TupleGet(slot as u8)));
    }
    Ok(())
}

} // verus!
