//! Compiling functions: the named ones, the methods of impls, and the default
//! implementations of abilities' methods.

use vstd::prelude::*;
use vstd::utf8::encode_scalar;

use crate::ast::{
    AbilityDef, AbilityMethod, BindingId, Expr, FunctionDef, ImplDef, ImplMethod, Param, Span,
    TypeParam,
};
use crate::bytecode::{
    CompiledFunction, DebugInfo, DebugView, FunctionView, SourceMapping,
};
use crate::compiler::code::{lower, lowered_code, ops, Lowered, Op, Opcode};
use crate::compiler::codegen::{expr_code, with_params};
use crate::compiler::context::{
    assoc_set, empty_scope, function_hash, with_local, FunctionCompiler, ModuleContext,
    ModuleTables, Produced, Scope, TablesView,
};
use crate::compiler::dicts::{dict_capture_name, dict_name, internal_at, reached, Gen};
use crate::compiler::error::{CompileError, CompileErrorKind, ErrorView, KindView};
use crate::compiler::expr::compile_expr_tail;
use crate::compiler::lambdas::alloc_params;
use crate::compiler::tables::{own_item_key, own_key};
use crate::digest::Digest;
use crate::fqn::KeyView;
use crate::text::{chars_of, owned, push_text};

verus! {

broadcast use vstd::string::group_string_axioms;

// ── places in the source ────────────────────────────────────────────────────

/// The number of characters that begin before a byte offset.
pub open spec fn chars_before(s: Seq<char>, offset: int) -> nat
    decreases s.len(),
{
    if s.len() == 0 || offset <= 0 {
        0
    } else {
        1 + chars_before(s.drop_first(), offset - encode_scalar(s[0] as u32).len())
    }
}

/// The line that the end of a text is on, counted from one.
pub open spec fn line_at_end(s: Seq<char>) -> nat
    decreases s.len(),
{
    if s.len() == 0 {
        1
    } else if s.last() == '\n' {
        line_at_end(s.drop_last()) + 1
    } else {
        line_at_end(s.drop_last())
    }
}

/// The column that the end of a text is at, counted from one.
pub open spec fn column_at_end(s: Seq<char>) -> nat
    decreases s.len(),
{
    if s.len() == 0 || s.last() == '\n' {
        1
    } else {
        column_at_end(s.drop_last()) + 1
    }
}

/// The line and column of a byte offset, counted from one.
pub open spec fn line_col(source: Seq<char>, offset: int) -> (nat, nat) {
    let prefix = source.take(chars_before(source, offset) as int);
    (line_at_end(prefix), column_at_end(prefix))
}

/// The number of bytes of a character.
fn utf8_width(c: char) -> (r: u64)
    ensures
        r == encode_scalar(c as u32).len(),
        1 <= r <= 4,
{
    proof {
        vstd::utf8::char_is_scalar(c);
    }
    let n: u32 = c as u32;
    if n < 0x80 {
        1
    } else if n < 0x800 {
        2
    } else if n < 0x10000 {
        3
    } else {
        4
    }
}

/// The line and column at which a part of the source begins, counted from one.
/// A count that does not fit wraps.
pub fn span_to_line_col(source: &str, span: Span) -> (r: (u32, u32))
    ensures
        r.0 == line_col(source@, span.start as int).0 as u32,
        r.1 == line_col(source@, span.start as int).1 as u32,
{
    let ghost s = source@;
    let offset: u64 = span.start as u64;
    let chars = chars_of(source);
    let mut i: usize = 0;
    let mut at: u64 = 0;
    let mut line: u64 = 1;
    let mut column: u64 = 1;
    assert(s.skip(0) =~= s);
    assert(s.take(0) =~= seq![]);
    while i < chars.len() && at < offset
        invariant
            i <= chars@.len(),
            chars@ == s,
            offset == span.start,
            i <= at <= offset + 4,
            line == line_at_end(s.take(i as int)),
            column == column_at_end(s.take(i as int)),
            1 <= line <= i + 1,
            1 <= column <= i + 1,
            chars_before(s, offset as int) == i + chars_before(s.skip(i as int), offset - at),
        decreases chars@.len() - i,
    {
        let c = chars[i];
        assert(s.take(i + 1).drop_last() =~= s.take(i as int));
        assert(s.skip(i as int).drop_first() =~= s.skip(i + 1));
        at = at + utf8_width(c);
        if c == '\n' {
            line = line + 1;
            column = 1;
        } else {
            column = column + 1;
        }
        i = i + 1;
    }
    assert(chars_before(s.skip(i as int), offset - at) == 0);
    (line as u32, column as u32)
}

/// A source map with the lines and columns of a source.
pub open spec fn located(map: Seq<SourceMapping>, source: Seq<char>) -> Seq<SourceMapping> {
    Seq::new(
        map.len(),
        |i: int|
            SourceMapping {
                line: line_col(source, (map[i].source_start as u32) as int).0 as u32,
                column: line_col(source, (map[i].source_start as u32) as int).1 as u32,
                ..map[i]
            },
    )
}

/// Give a source map the lines and columns of a source.
fn locate(map: &mut Vec<SourceMapping>, source: &str)
    ensures
        final(map)@ == located(old(map)@, source@),
{
    let ghost start = map@;
    let mut i: usize = 0;
    while i < map.len()
        invariant
            i <= map@.len(),
            map@.len() == start.len(),
            forall|k: int| 0 <= k < i ==> (#[trigger] map@[k]) == located(start, source@)[k],
            forall|k: int| i <= k < start.len() ==> (#[trigger] map@[k]) == start[k],
        decreases map@.len() - i,
    {
        let m = map[i];
        let (line, column) = span_to_line_col(
            source,
            Span::new(m.source_start as u32, m.source_end as u32),
        );
        map.set(i, SourceMapping { line, column, ..m });
        i = i + 1;
    }
    assert(map@ =~= located(start, source@));
}

// ── dictionary parameters ───────────────────────────────────────────────────

/// The trait bounds of one type parameter, each with the parameter's name.
pub open spec fn bounds_of(p: TypeParam) -> Seq<(Seq<char>, Seq<char>)> {
    Seq::new(p.bounds@.len(), |i: int| (p.name@, p.bounds@[i].name@))
}

/// The trait bounds of type parameters, in order: a function takes one
/// dictionary for each.
pub open spec fn dict_params(ps: Seq<TypeParam>) -> Seq<(Seq<char>, Seq<char>)>
    decreases ps.len(),
{
    if ps.len() == 0 {
        seq![]
    } else {
        dict_params(ps.drop_last()) + bounds_of(ps.last())
    }
}

/// The name that a debugger shows for a dictionary parameter.
pub open spec fn dict_label(param: Seq<char>, bound: Seq<char>) -> Seq<char> {
    "<dict "@ + param + ": "@ + bound + ">"@
}

/// A scope with locals for dictionary parameters, the first of them of number
/// `from`.
pub open spec fn with_dicts(s: Scope, from: nat, ds: Seq<(Seq<char>, Seq<char>)>) -> Result<
    Scope,
    ErrorView,
>
    decreases ds.len(),
{
    if ds.len() == 0 {
        Ok(s)
    } else {
        match with_dicts(s, from, ds.drop_last()) {
            Err(e) => Err(e),
            Ok(b) => if b.next_local == u16::MAX {
                Err(
                    ErrorView {
                        kind: KindView::TooManyLocals { count: (b.next_local + 1) as usize },
                        span: (0, 0),
                    },
                )
            } else {
                Ok(
                    Scope {
                        next_local: (b.next_local + 1) as u16,
                        local_names: assoc_set(
                            b.local_names,
                            dict_name((from + ds.len() - 1) as nat),
                            b.next_local,
                        ),
                        slot_names: b.slot_names.push(
                            (b.next_local, dict_label(ds.last().0, ds.last().1)),
                        ),
                        ..b
                    },
                )
            },
        }
    }
}

proof fn lemma_dicts_fault_stays(s: Scope, from: nat, ds: Seq<(Seq<char>, Seq<char>)>, k: int)
    requires
        0 <= k <= ds.len(),
        with_dicts(s, from, ds.take(k)) is Err,
    ensures
        with_dicts(s, from, ds) == with_dicts(s, from, ds.take(k)),
    decreases ds.len() - k,
{
    if k < ds.len() {
        assert(ds.take(k + 1).drop_last() =~= ds.take(k));
        lemma_dicts_fault_stays(s, from, ds, k + 1);
    } else {
        assert(ds.take(k) =~= ds);
    }
}

/// The trait bounds of type parameters, each as a pair of names.
pub open spec fn pair_texts(s: Seq<(String, String)>) -> Seq<(Seq<char>, Seq<char>)> {
    Seq::new(s.len(), |i: int| (s[i].0@, s[i].1@))
}

/// Add the trait bounds of type parameters to a list.
fn push_dict_params(out: &mut Vec<(String, String)>, ps: &Vec<TypeParam>)
    ensures
        pair_texts(final(out)@) == pair_texts(old(out)@) + dict_params(ps@),
{
    let ghost start = pair_texts(out@);
    let mut i: usize = 0;
    assert(ps@.take(0) =~= seq![]);
    assert(start =~= start + seq![]);
    while i < ps.len()
        invariant
            i <= ps@.len(),
            pair_texts(out@) == start + dict_params(ps@.take(i as int)),
        decreases ps@.len() - i,
    {
        assert(ps@.take(i + 1).drop_last() =~= ps@.take(i as int));
        let ghost was = pair_texts(out@);
        let p = &ps[i];
        let mut k: usize = 0;
        assert(was =~= was + bounds_of(*p).take(0));
        while k < p.bounds.len()
            invariant
                k <= p.bounds@.len(),
                pair_texts(out@) == was + bounds_of(*p).take(k as int),
            decreases p.bounds@.len() - k,
        {
            let ghost now = pair_texts(out@);
            out.push((owned(p.name.as_str()), owned(p.bounds[k].name.as_str())));
            assert(pair_texts(out@) =~= now.push(bounds_of(*p)[k as int]));
            k = k + 1;
            assert(pair_texts(out@) =~= was + bounds_of(*p).take(k as int));
        }
        assert(bounds_of(*p).take(k as int) =~= bounds_of(*p));
        assert(pair_texts(out@) =~= start + (dict_params(ps@.take(i as int)) + bounds_of(*p)));
        i = i + 1;
    }
    assert(ps@.take(ps@.len() as int) =~= ps@);
}

/// The name that a debugger shows for a dictionary parameter.
fn dict_label_of(param: &str, bound: &str) -> (r: String)
    ensures
        r@ == dict_label(param@, bound@),
{
    let mut out = owned("<dict ");
    push_text(&mut out, param);
    push_text(&mut out, ": ");
    push_text(&mut out, bound);
    push_text(&mut out, ">");
    out
}

/// Give dictionary parameters locals.
fn alloc_dict_locals(fc: &mut FunctionCompiler, dicts: &Vec<(String, String)>) -> (r: Result<
    (),
    CompileError,
>)
    ensures
        final(fc).ops() == old(fc).ops(),
        match with_dicts(old(fc).scope(), 0, pair_texts(dicts@)) {
            Ok(s) => r is Ok && final(fc).scope() == s,
            Err(e) => r matches Err(f) && f@ == e,
        },
{
    let ghost start = fc.ops();
    let ghost s = fc.scope();
    let ghost all = pair_texts(dicts@);
    let mut i: usize = 0;
    assert(all.take(0) =~= seq![]);
    while i < dicts.len()
        invariant
            i <= dicts@.len(),
            all == pair_texts(dicts@),
            start == old(fc).ops(),
            s == old(fc).scope(),
            fc.ops() == start,
            with_dicts(s, 0, all.take(i as int)) == Ok::<Scope, ErrorView>(fc.scope()),
        decreases dicts@.len() - i,
    {
        assert(all.take(i + 1).drop_last() =~= all.take(i as int));
        proof {
            if with_dicts(s, 0, all.take(i + 1)) is Err {
                lemma_dicts_fault_stays(s, 0, all, i + 1);
            }
        }
        let slot: u16 = fc.next_local;
        if slot == u16::MAX {
            return Err(
                CompileError::new(
                    CompileErrorKind::TooManyLocals { count: slot as usize + 1 },
                    (0, 0),
                ),
            );
        }
        let ghost b = fc.scope();
        let label = dict_label_of(dicts[i].0.as_str(), dicts[i].1.as_str());
        let ghost text = label@;
        let name = dict_capture_name(i);
        fc.next_local = slot + 1;
        fc.local_names.set(name.as_str(), slot);
        fc.slot_names.push((slot, label));
        assert(fc.scope().slot_names =~= b.slot_names.push((slot, text)));
        assert(all.take(i + 1).last() == all[i as int]);
        i = i + 1;
    }
    assert(all.take(all.len() as int) =~= all);
    Ok(())
}

// ── bodies ──────────────────────────────────────────────────────────────────

/// A function as it is compiled: its parameters, the receiver first, then the
/// dictionaries, and its body.
pub struct Signature {
    /// The binding of the receiver, if it takes one.
    pub receiver: Option<BindingId>,
    /// The parameters.
    pub params: Seq<Param>,
    /// The trait bounds that it takes dictionaries for.
    pub dicts: Seq<(Seq<char>, Seq<char>)>,
}

/// The scope in which the body of a function begins.
pub open spec fn body_scope(sig: Signature) -> Result<Scope, ErrorView> {
    match (match sig.receiver {
        Some(id) => with_local(empty_scope(), id, "self"@),
        None => Ok(empty_scope()),
    }) {
        Err(e) => Err(e),
        Ok(s) => match with_params(s, sig.params) {
            Err(e) => Err(e),
            Ok(p) => with_dicts(p, 0, sig.dicts),
        },
    }
}

/// The number of parameters of a function.
pub open spec fn arity(sig: Signature) -> u8 {
    (sig.params.len() + (if sig.receiver is Some {
        1int
    } else {
        0int
    }) + sig.dicts.len()) as u8
}

/// Where the source of a module comes from, as far as it is known.
pub struct Origin {
    /// The source.
    pub source: Option<Seq<char>>,
    /// The source file.
    pub source_file: Option<Seq<char>>,
}

/// What a debugger needs to know of a function, where anything is known of the
/// source.
pub open spec fn debug_of(o: Origin, name: Seq<char>, l: Lowered, s: Scope) -> Option<DebugView> {
    if o.source is Some || o.source_file is Some {
        Some(
            DebugView {
                function_name: Some(name),
                source_file: o.source_file,
                source_map: match o.source {
                    Some(text) => located(l.source_map, text),
                    None => l.source_map,
                },
                local_names: s.slot_names,
            },
        )
    } else {
        None
    }
}

/// A function under a temporary hash, and what was produced besides. Its body is
/// in tail position.
pub open spec fn body_function(
    t: TablesView,
    sig: Signature,
    body: Expr,
    hash: Seq<u8>,
    name: Seq<char>,
    o: Origin,
    out: Produced,
) -> Result<(FunctionView, Produced), ErrorView> {
    match body_scope(sig) {
        Err(e) => Err(e),
        Ok(scope) => match expr_code(t, body, Gen { scope, out }, true) {
            Err(e) => Err(e),
            Ok((code, g)) => match lowered_code(code.push(Op::Plain(Opcode::Return))) {
                Err(e) => Err(e),
                Ok(l) => Ok(
                    (
                        FunctionView {
                            hash,
                            bytecode: l.bytecode,
                            constants: l.constants,
                            local_count: g.scope.next_local,
                            param_count: arity(sig),
                            dependencies: l.dependencies,
                            debug: debug_of(o, name, l, g.scope),
                        },
                        g.out,
                    ),
                ),
            },
        },
    }
}

/// What optional text says.
pub open spec fn opt_str(s: Option<&str>) -> Option<Seq<char>> {
    match s {
        Some(t) => Some(t@),
        None => None,
    }
}

/// Where the source of a module comes from.
pub open spec fn origin(source: Option<&str>, source_file: Option<&str>) -> Origin {
    Origin { source: opt_str(source), source_file: opt_str(source_file) }
}

/// Compile a body in the scope of its parameters, and make a function of it.
fn compile_body(
    t: &ModuleTables,
    fc: FunctionCompiler,
    body: &Expr,
    hash: Digest,
    params: u8,
    name: String,
    source: Option<&str>,
    source_file: Option<&str>,
    ctx: &mut ModuleContext,
) -> (r: Result<CompiledFunction, CompileError>)
    requires
        fc.ops() == Seq::<Op>::empty(),
    ensures
        match expr_code(t@, *body, reached(fc, *old(ctx)), true) {
            Err(e) => r matches Err(f) && f@ == e,
            Ok((code, g)) => match lowered_code(code.push(Op::Plain(Opcode::Return))) {
                Err(e) => r matches Err(f) && f@ == e,
                Ok(l) => r matches Ok(c) && final(ctx)@ == g.out && c@ == (FunctionView {
                    hash: hash@,
                    bytecode: l.bytecode,
                    constants: l.constants,
                    local_count: g.scope.next_local,
                    param_count: params,
                    dependencies: l.dependencies,
                    debug: debug_of(origin(source, source_file), name@, l, g.scope),
                }),
            },
        },
{
    let mut fc = fc;
    let ghost g = reached(fc, *ctx);
    compile_expr_tail(t, &mut fc, body, ctx, true)?;
    let ghost code = expr_code(t@, *body, g, true)->Ok_0.0;
    fc.emit_plain(Opcode::Return);
    assert(fc.ops() =~= code.push(Op::Plain(Opcode::Return)));
    let l = lower(&fc.code)?;
    let ghost lowered = l@;
    let mut debug_info: Option<DebugInfo> = None;
    if source.is_some() || source_file.is_some() {
        let mut source_map = l.source_map;
        if let Some(text) = source {
            locate(&mut source_map, text);
        }
        let file = match source_file {
            Some(f) => Some(owned(f)),
            None => None,
        };
        debug_info = Some(
            DebugInfo {
                function_name: Some(name),
                source_file: file,
                source_map,
                local_names: fc.slot_names,
            },
        );
    }
    Ok(
        CompiledFunction {
            hash,
            bytecode: l.bytecode,
            constants: l.constants,
            local_count: fc.next_local,
            param_count: params,
            dependencies: l.dependencies,
            debug_info,
        },
    )
}

// ── functions ───────────────────────────────────────────────────────────────

/// The parameters of a named function.
pub open spec fn function_signature(d: FunctionDef) -> Signature {
    Signature { receiver: None, params: d.params@, dicts: dict_params(d.type_params@) }
}

/// A named function under its temporary hash.
pub open spec fn function_body(t: TablesView, d: FunctionDef, o: Origin, out: Produced) -> Result<
    (FunctionView, Produced),
    ErrorView,
> {
    match function_hash(t, own_key(t.module_id, d.name@)) {
        Some(h) => body_function(t, function_signature(d), d.body, h, d.name@, o, out),
        None => Err(internal_at(""@, d.name_span)),
    }
}

/// Compile a named function under its temporary hash.
pub fn compile_function_with_hash(
    func: &FunctionDef,
    t: &ModuleTables,
    ctx: &mut ModuleContext,
    source: Option<&str>,
    source_file: Option<&str>,
) -> (r: Result<CompiledFunction, CompileError>)
    requires
        function_hash(t@, own_key(t@.module_id, func.name@)) is Some,
    ensures
        match function_body(t@, *func, origin(source, source_file), old(ctx)@) {
            Ok((f, out)) => r matches Ok(c) && c@ == f && final(ctx)@ == out,
            Err(e) => r matches Err(x) && x@ == e,
        },
{
    let key = own_item_key(&t.module_id, func.name.as_str());
    let hash = t.function_hash(&key).unwrap();
    let mut fc = FunctionCompiler::new();
    alloc_params(&mut fc, &func.params)?;
    let mut dicts: Vec<(String, String)> = Vec::new();
    push_dict_params(&mut dicts, &func.type_params);
    assert(pair_texts(dicts@) =~= dict_params(func.type_params@));
    alloc_dict_locals(&mut fc, &dicts)?;
    let count: u128 = func.params.len() as u128 + dicts.len() as u128;
    let name = owned(func.name.as_str());
    compile_body(t, fc, &func.body, hash, count as u8, name, source, source_file, ctx)
}

/// The parameters of a method of an ability.
pub open spec fn ability_method_signature(m: AbilityMethod) -> Signature {
    Signature { receiver: None, params: m.params@, dicts: dict_params(m.type_params@) }
}

/// The default implementation of a method of an ability under its temporary
/// hash.
pub open spec fn ability_method_body(
    t: TablesView,
    d: AbilityDef,
    m: AbilityMethod,
    symbol: Seq<char>,
    o: Origin,
    out: Produced,
) -> Result<(FunctionView, Produced), ErrorView> {
    match body_scope(ability_method_signature(m)) {
        Err(e) => Err(e),
        Ok(_) => match m.body {
            None => Err(
                internal_at("ability method without a body reached compilation"@, m.span),
            ),
            Some(body) => match function_hash(t, KeyView::Bare(symbol)) {
                Some(h) => body_function(
                    t,
                    ability_method_signature(m),
                    body,
                    h,
                    d.name@ + "::"@ + m.name@,
                    o,
                    out,
                ),
                None => Err(internal_at(""@, m.span)),
            },
        },
    }
}

/// Compile the default implementation of a method of an ability.
pub fn compile_ability_method(
    def: &AbilityDef,
    method: &AbilityMethod,
    symbol: &str,
    t: &ModuleTables,
    ctx: &mut ModuleContext,
    source: Option<&str>,
    source_file: Option<&str>,
) -> (r: Result<CompiledFunction, CompileError>)
    requires
        function_hash(t@, KeyView::Bare(symbol@)) is Some,
    ensures
        match ability_method_body(
            t@,
            *def,
            *method,
            symbol@,
            origin(source, source_file),
            old(ctx)@,
        ) {
            Ok((f, out)) => r matches Ok(c) && c@ == f && final(ctx)@ == out,
            Err(e) => r matches Err(x) && x@ == e,
        },
{
    let mut fc = FunctionCompiler::new();
    alloc_params(&mut fc, &method.params)?;
    let mut dicts: Vec<(String, String)> = Vec::new();
    push_dict_params(&mut dicts, &method.type_params);
    assert(pair_texts(dicts@) =~= dict_params(method.type_params@));
    alloc_dict_locals(&mut fc, &dicts)?;
    let body = match &method.body {
        Some(b) => b,
        None => {
            return Err(
                CompileError::internal(
                    "ability method without a body reached compilation",
                    method.span.as_pair(),
                ),
            );
        },
    };
    let hash = t.symbol_hash(symbol).unwrap();
    let count: u128 = method.params.len() as u128 + dicts.len() as u128;
    let mut name = owned(def.name.as_str());
    push_text(&mut name, "::");
    push_text(&mut name, method.name.as_str());
    compile_body(t, fc, body, hash, count as u8, name, source, source_file, ctx)
}

/// The parameters of a method of an impl: the dictionaries of the impl's bounds
/// come before those of the method's own.
pub open spec fn impl_method_signature(d: ImplDef, m: ImplMethod) -> Signature {
    Signature {
        receiver: if m.has_self {
            Some(m.self_id)
        } else {
            None
        },
        params: m.params@,
        dicts: dict_params(d.type_params@) + dict_params(m.type_params@),
    }
}

/// The name that a debugger shows for a method of an impl.
pub open spec fn impl_method_name(d: ImplDef, m: ImplMethod) -> Seq<char> {
    (match d.trait_name {
        Some(n) => n.name@,
        None => d.for_type@,
    }) + "::"@ + m.name@
}

/// A method of an impl under its temporary hash.
pub open spec fn impl_method_body(
    t: TablesView,
    d: ImplDef,
    m: ImplMethod,
    o: Origin,
    out: Produced,
) -> Result<(FunctionView, Produced), ErrorView> {
    let hash = match m.resolved_symbol {
        Some(s) => function_hash(t, KeyView::Bare(s@)),
        None => None,
    };
    match hash {
        Some(h) => body_function(
            t,
            impl_method_signature(d, m),
            m.body,
            h,
            impl_method_name(d, m),
            o,
            out,
        ),
        None => Err(internal_at("impl method missing resolved symbol"@, m.span)),
    }
}

/// Compile a method of an impl.
pub fn compile_impl_method(
    def: &ImplDef,
    method: &ImplMethod,
    t: &ModuleTables,
    ctx: &mut ModuleContext,
    source: Option<&str>,
    source_file: Option<&str>,
) -> (r: Result<CompiledFunction, CompileError>)
    ensures
        match impl_method_body(t@, *def, *method, origin(source, source_file), old(ctx)@) {
            Ok((f, out)) => r matches Ok(c) && c@ == f && final(ctx)@ == out,
            Err(e) => r matches Err(x) && x@ == e,
        },
{
    let found = match &method.resolved_symbol {
        Some(s) => t.symbol_hash(s.as_str()),
        None => None,
    };
    let hash = match found {
        Some(h) => h,
        None => {
            return Err(
                CompileError::internal(
                    "impl method missing resolved symbol",
                    method.span.as_pair(),
                ),
            );
        },
    };
    let mut fc = FunctionCompiler::new();
    if method.has_self {
        fc.alloc_local_with_name(method.self_id, "self")?;
    }
    alloc_params(&mut fc, &method.params)?;
    let mut dicts: Vec<(String, String)> = Vec::new();
    push_dict_params(&mut dicts, &def.type_params);
    push_dict_params(&mut dicts, &method.type_params);
    assert(pair_texts(dicts@) =~= dict_params(def.type_params@) + dict_params(
        method.type_params@,
    ));
    alloc_dict_locals(&mut fc, &dicts)?;
    let receiver: u128 = if method.has_self {
        1
    } else {
        0
    };
    let count: u128 = method.params.len() as u128 + receiver + dicts.len() as u128;
    let mut name = match &def.trait_name {
        Some(n) => owned(n.name.as_str()),
        None => owned(def.for_type.as_str()),
    };
    push_text(&mut name, "::");
    push_text(&mut name, method.name.as_str());
    compile_body(t, fc, &method.body, hash, count as u8, name, source, source_file, ctx)
}

} // verus!
