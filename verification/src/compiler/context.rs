//! What compilation keeps track of: the bindings in scope of a function, what a
//! module's names mean, and what a module's functions have produced so far.

use vstd::prelude::*;

use crate::ast::{BindingId, QualifiedName, Span};
use crate::bytecode::{CompiledFunction, FunctionView};
use crate::compiler::code::{ops, Instr, Op, Opcode};
use crate::compiler::error::{CompileError, CompileErrorKind, ErrorView, KindView};
use crate::compiler::hash::key_hashes;
use crate::compiler::module_output::object_map;
use crate::digest::{blake3_hash, Digest};
use crate::fqn::{KeyView, ModuleId, ModuleView, NameKey, NameTable};
use crate::module_paths::{contains_text, copy_texts, texts};
use crate::nominal::{uuid_text, uuid_to_text};
use crate::object::{ObjectView, StoredObject};
use crate::order::text_same;
use crate::ordmap::OrdMap;
use crate::text::{decimal_text, owned, push_decimal, push_text};
use crate::types::AbilityId;
use crate::wire::u32_bytes;

verus! {

broadcast use {vstd::string::group_string_axioms, vstd::array::group_array_axioms};

// ── small tables ────────────────────────────────────────────────────────────

/// Where a key stands in a list of pairs; `-1` where it does not.
pub open spec fn assoc_at<A, B>(s: Seq<(A, B)>, k: A) -> int
    decreases s.len(),
{
    if s.len() == 0 {
        -1
    } else if s.last().0 == k {
        s.len() - 1
    } else {
        assoc_at(s.drop_last(), k)
    }
}

/// What a list of pairs gives a key.
pub open spec fn assoc_get<A, B>(s: Seq<(A, B)>, k: A) -> Option<B> {
    if assoc_at(s, k) >= 0 {
        Some(s[assoc_at(s, k)].1)
    } else {
        None
    }
}

/// A list of pairs with a key bound to a value: in its place, or at the end.
pub open spec fn assoc_set<A, B>(s: Seq<(A, B)>, k: A, v: B) -> Seq<(A, B)> {
    if assoc_at(s, k) >= 0 {
        s.update(assoc_at(s, k), (k, v))
    } else {
        s.push((k, v))
    }
}

pub(crate) proof fn lemma_assoc_at<A, B>(s: Seq<(A, B)>, k: A)
    ensures
        -1 <= assoc_at(s, k) < s.len(),
        assoc_at(s, k) >= 0 ==> s[assoc_at(s, k)].0 == k,
        forall|i: int| assoc_at(s, k) < i < s.len() && 0 <= i ==> (#[trigger] s[i]).0 != k,
    decreases s.len(),
{
    if s.len() > 0 {
        lemma_assoc_at(s.drop_last(), k);
        if s.last().0 != k {
            assert forall|i: int| assoc_at(s, k) < i < s.len() && 0 <= i implies (
            #[trigger] s[i]).0 != k by {
                if i < s.len() - 1 {
                    assert(s.drop_last()[i].0 != k);
                }
            }
        }
    }
}

pub(crate) proof fn lemma_assoc_found<A, B>(s: Seq<(A, B)>, k: A, at: int)
    requires
        -1 <= at < s.len(),
        at >= 0 ==> s[at].0 == k,
        forall|i: int| at < i < s.len() && 0 <= i ==> (#[trigger] s[i]).0 != k,
    ensures
        assoc_at(s, k) == at,
{
    lemma_assoc_at(s, k);
    if assoc_at(s, k) > at {
        assert(s[assoc_at(s, k)].0 != k);
    }
}

/// A small table keyed by text.
#[derive(Debug)]
pub struct TextTable<V> {
    /// The entries.
    pub entries: Vec<(String, V)>,
}

impl<V> View for TextTable<V> {
    type V = Seq<(Seq<char>, V)>;

    open spec fn view(&self) -> Seq<(Seq<char>, V)> {
        Seq::new(self.entries@.len(), |i: int| (self.entries@[i].0@, self.entries@[i].1))
    }
}

impl<V: Copy> TextTable<V> {
    /// An empty table.
    pub fn new() -> (r: TextTable<V>)
        ensures
            r@ == Seq::<(Seq<char>, V)>::empty(),
    {
        let r = TextTable { entries: Vec::new() };
        assert(r@ =~= Seq::<(Seq<char>, V)>::empty());
        r
    }

    /// Where a key stands.
    fn find(&self, key: &str) -> (r: Option<usize>)
        ensures
            match r {
                Some(i) => i == assoc_at(self@, key@) && i < self.entries@.len(),
                None => assoc_at(self@, key@) == -1,
            },
    {
        let mut n: usize = self.entries.len();
        while n > 0
            invariant
                n <= self.entries@.len(),
                forall|i: int| n <= i < self.entries@.len() ==> (#[trigger] self@[i]).0 != key@,
            decreases n,
        {
            n = n - 1;
            if text_same(self.entries[n].0.as_str(), key) {
                proof {
                    lemma_assoc_found(self@, key@, n as int);
                }
                return Some(n);
            }
            assert(self@[n as int].0 != key@);
        }
        proof {
            lemma_assoc_found(self@, key@, -1);
        }
        None
    }

    /// What a key is bound to.
    pub fn get(&self, key: &str) -> (r: Option<V>)
        ensures
            r == assoc_get(self@, key@),
    {
        match self.find(key) {
            Some(i) => Some(self.entries[i].1),
            None => None,
        }
    }

    /// Bind a key.
    pub fn set(&mut self, key: &str, value: V)
        ensures
            final(self)@ == assoc_set(old(self)@, key@, value),
    {
        let ghost was = self@;
        match self.find(key) {
            Some(i) => {
                self.entries.set(i, (owned(key), value));
                assert(self@ =~= was.update(i as int, (key@, value)));
            },
            None => {
                self.entries.push((owned(key), value));
                assert(self@ =~= was.push((key@, value)));
            },
        }
    }

    /// A copy of the table.
    pub fn copy(&self) -> (r: TextTable<V>)
        ensures
            r@ == self@,
    {
        let mut entries: Vec<(String, V)> = Vec::new();
        let mut i: usize = 0;
        while i < self.entries.len()
            invariant
                i <= self.entries@.len(),
                entries@.len() == i,
                forall|k: int|
                    0 <= k < i ==> (#[trigger] entries@[k]).0@ == self.entries@[k].0@
                        && entries@[k].1 == self.entries@[k].1,
            decreases self.entries@.len() - i,
        {
            entries.push((owned(self.entries[i].0.as_str()), self.entries[i].1));
            i = i + 1;
        }
        let r = TextTable { entries };
        assert(r@ =~= self@);
        r
    }
}

/// The bytes of the hashes that a list of pairs holds.
pub open spec fn hash_entries(s: Seq<(Seq<char>, Digest)>) -> Seq<(Seq<char>, Seq<u8>)> {
    Seq::new(s.len(), |i: int| (s[i].0, s[i].1@))
}

proof fn lemma_hash_entries(s: Seq<(Seq<char>, Digest)>, k: Seq<char>)
    ensures
        assoc_at(hash_entries(s), k) == assoc_at(s, k),
    decreases s.len(),
{
    if s.len() > 0 {
        lemma_hash_entries(s.drop_last(), k);
        assert(hash_entries(s).drop_last() =~= hash_entries(s.drop_last()));
    }
}

/// A small table of slots keyed by bindings.
#[derive(Debug)]
pub struct IdTable {
    /// The entries.
    pub entries: Vec<(BindingId, u16)>,
}

impl View for IdTable {
    type V = Seq<(BindingId, u16)>;

    open spec fn view(&self) -> Seq<(BindingId, u16)> {
        self.entries@
    }
}

impl IdTable {
    /// An empty table.
    pub fn new() -> (r: IdTable)
        ensures
            r@ == Seq::<(BindingId, u16)>::empty(),
    {
        IdTable { entries: Vec::new() }
    }

    /// Where a key stands.
    fn find(&self, key: BindingId) -> (r: Option<usize>)
        ensures
            match r {
                Some(i) => i == assoc_at(self@, key) && i < self.entries@.len(),
                None => assoc_at(self@, key) == -1,
            },
    {
        let mut n: usize = self.entries.len();
        while n > 0
            invariant
                n <= self.entries@.len(),
                forall|i: int| n <= i < self.entries@.len() ==> (#[trigger] self@[i]).0 != key,
            decreases n,
        {
            n = n - 1;
            if self.entries[n].0 == key {
                proof {
                    lemma_assoc_found(self@, key, n as int);
                }
                return Some(n);
            }
        }
        proof {
            lemma_assoc_found(self@, key, -1);
        }
        None
    }

    /// What a key is bound to.
    pub fn get(&self, key: BindingId) -> (r: Option<u16>)
        ensures
            r == assoc_get(self@, key),
    {
        match self.find(key) {
            Some(i) => Some(self.entries[i].1),
            None => None,
        }
    }

    /// Bind a key.
    pub fn set(&mut self, key: BindingId, value: u16)
        ensures
            final(self)@ == assoc_set(old(self)@, key, value),
    {
        match self.find(key) {
            Some(i) => {
                self.entries.set(i, (key, value));
            },
            None => {
                self.entries.push((key, value));
            },
        }
    }

    /// A copy of the table.
    pub fn copy(&self) -> (r: IdTable)
        ensures
            r@ == self@,
    {
        let mut entries: Vec<(BindingId, u16)> = Vec::new();
        let mut i: usize = 0;
        while i < self.entries.len()
            invariant
                i <= self.entries@.len(),
                entries@ == self.entries@.take(i as int),
            decreases self.entries@.len() - i,
        {
            entries.push((self.entries[i].0, self.entries[i].1));
            i = i + 1;
            assert(entries@ =~= self.entries@.take(i as int));
        }
        assert(entries@ =~= self.entries@);
        IdTable { entries }
    }
}

// ── the scope of a function ─────────────────────────────────────────────────

/// The bindings in scope of a function that is being compiled.
pub struct Scope {
    /// The slots of bindings.
    pub locals: Seq<(BindingId, u16)>,
    /// The slots of names.
    pub local_names: Seq<(Seq<char>, u16)>,
    /// The next free slot.
    pub next_local: u16,
    /// The captured values of bindings of the enclosing function.
    pub captures: Seq<(BindingId, u16)>,
    /// The captured values of names of the enclosing function.
    pub capture_names: Seq<(Seq<char>, u16)>,
    /// The slots of bindings of the enclosing function, in a closure.
    pub parent_locals: Option<Seq<(BindingId, u16)>>,
    /// The slots of names of the enclosing function, in a closure.
    pub parent_local_names: Option<Seq<(Seq<char>, u16)>>,
    /// The names of the functions further out, which the enclosing function can
    /// capture in turn.
    pub outer_names: Seq<Seq<char>>,
    /// The objects of the constants of blocks.
    pub block_consts: Seq<(Seq<char>, Seq<u8>)>,
    /// The names that slots were given, for a debugger.
    pub slot_names: Seq<(u16, Seq<char>)>,
}

/// The scope of a function without parameters.
pub open spec fn empty_scope() -> Scope {
    Scope {
        locals: seq![],
        local_names: seq![],
        next_local: 0,
        captures: seq![],
        capture_names: seq![],
        parent_locals: None,
        parent_local_names: None,
        outer_names: seq![],
        block_consts: seq![],
        slot_names: seq![],
    }
}

/// The names that a function can capture.
pub open spec fn enclosing_names(s: Scope) -> Seq<Seq<char>> {
    match s.parent_local_names {
        Some(p) => s.outer_names + Seq::new(p.len(), |i: int| p[i].0),
        None => s.outer_names,
    }
}

/// The scope of a closure in a function: it sees the function's bindings, the
/// names that the function itself can capture, and the constants of its blocks.
pub open spec fn closure_scope(outer: Scope) -> Scope {
    Scope {
        parent_locals: Some(outer.locals),
        parent_local_names: Some(outer.local_names),
        outer_names: enclosing_names(outer),
        block_consts: outer.block_consts,
        ..empty_scope()
    }
}

/// A scope with a new local for a binding of a name; an error where all slots
/// are taken.
pub open spec fn with_local(s: Scope, id: BindingId, name: Seq<char>) -> Result<Scope, ErrorView> {
    if s.next_local == u16::MAX {
        Err(
            ErrorView {
                kind: KindView::TooManyLocals { count: (s.next_local + 1) as usize },
                span: (0, 0),
            },
        )
    } else {
        Ok(
            Scope {
                locals: assoc_set(s.locals, id, s.next_local),
                local_names: assoc_set(s.local_names, name, s.next_local),
                next_local: (s.next_local + 1) as u16,
                slot_names: s.slot_names.push((s.next_local, name)),
                ..s
            },
        )
    }
}

/// Whether a binding is one of the enclosing function's.
pub open spec fn is_parent_binding(s: Scope, id: BindingId) -> bool {
    s.parent_locals matches Some(p) && assoc_get(p, id) is Some && assoc_get(s.locals, id) is None
}

/// Whether a name is one of an enclosing function's.
pub open spec fn is_parent_name(s: Scope, name: Seq<char>) -> bool {
    s.parent_local_names matches Some(p) && (assoc_get(p, name) is Some
        || s.outer_names.contains(name)) && assoc_get(s.local_names, name) is None
}

/// The slot that a name's captured value has, or gets.
pub open spec fn capture_slot(s: Scope, name: Seq<char>) -> u16 {
    match assoc_get(s.capture_names, name) {
        Some(slot) => slot,
        None => s.capture_names.len() as u16,
    }
}

/// A scope in which a name's value is captured.
pub open spec fn with_capture(s: Scope, name: Seq<char>) -> Scope {
    match assoc_get(s.capture_names, name) {
        Some(_) => s,
        None => Scope {
            capture_names: assoc_set(s.capture_names, name, s.capture_names.len() as u16),
            ..s
        },
    }
}

/// The name that the enclosing function gave to a slot; of two names the one
/// that came later.
pub open spec fn name_of_slot(names: Seq<(Seq<char>, u16)>, slot: u16) -> Option<Seq<char>>
    decreases names.len(),
{
    if names.len() == 0 {
        None
    } else if names.last().1 == slot {
        Some(names.last().0)
    } else {
        name_of_slot(names.drop_last(), slot)
    }
}

/// The name under which a binding of the enclosing function is captured.
pub open spec fn captured_name(s: Scope, id: BindingId) -> Seq<char> {
    let found = match (s.parent_locals, s.parent_local_names) {
        (Some(p), Some(names)) => match assoc_get(p, id) {
            Some(slot) => name_of_slot(names, slot),
            None => None,
        },
        _ => None,
    };
    match found {
        Some(n) => n,
        None => "__binding_"@ + decimal_text(id as nat),
    }
}

/// The slot that a binding's captured value has, or gets.
pub open spec fn binding_capture_slot(s: Scope, id: BindingId) -> u16 {
    match assoc_get(s.captures, id) {
        Some(slot) => slot,
        None => s.captures.len() as u16,
    }
}

/// A scope in which a binding's value is captured under a name.
pub open spec fn with_binding_capture(s: Scope, id: BindingId, name: Seq<char>) -> Scope {
    match assoc_get(s.captures, id) {
        Some(_) => s,
        None => Scope {
            captures: assoc_set(s.captures, id, s.captures.len() as u16),
            capture_names: assoc_set(s.capture_names, name, s.captures.len() as u16),
            ..s
        },
    }
}

/// `s` with an entry put behind the last one whose slot is not greater.
pub open spec fn insert_by_slot(s: Seq<(Seq<char>, u16)>, x: (Seq<char>, u16)) -> Seq<
    (Seq<char>, u16),
>
    decreases s.len(),
{
    if s.len() > 0 && x.1 < s.last().1 {
        insert_by_slot(s.drop_last(), x).push(s.last())
    } else {
        s.push(x)
    }
}

/// Captured names in the order of their slots.
pub open spec fn by_slot(s: Seq<(Seq<char>, u16)>) -> Seq<(Seq<char>, u16)>
    decreases s.len(),
{
    if s.len() == 0 {
        s
    } else {
        insert_by_slot(by_slot(s.drop_last()), s.last())
    }
}

/// A function that is being compiled.
#[derive(Debug)]
pub struct FunctionCompiler {
    /// The instructions so far.
    pub code: Vec<Instr>,
    /// The slots of bindings.
    pub locals: IdTable,
    /// The slots of names.
    pub local_names: TextTable<u16>,
    /// The next free slot.
    pub next_local: u16,
    /// The captured values of bindings of the enclosing function.
    pub captures: IdTable,
    /// The captured values of names of the enclosing function.
    pub capture_names: TextTable<u16>,
    /// The slots of bindings of the enclosing function, in a closure.
    pub parent_locals: Option<IdTable>,
    /// The slots of names of the enclosing function, in a closure.
    pub parent_local_names: Option<TextTable<u16>>,
    /// The names of the functions further out, which the enclosing function can
    /// capture in turn.
    pub outer_names: Vec<String>,
    /// The objects of the constants of blocks.
    pub block_consts: TextTable<Digest>,
    /// The names that slots were given, for a debugger.
    pub slot_names: Vec<(u16, String)>,
}

impl FunctionCompiler {
    /// The instructions so far.
    pub open spec fn ops(&self) -> Seq<Op> {
        ops(self.code@)
    }

    /// The bindings in scope.
    pub open spec fn scope(&self) -> Scope {
        Scope {
            locals: self.locals@,
            local_names: self.local_names@,
            next_local: self.next_local,
            captures: self.captures@,
            capture_names: self.capture_names@,
            parent_locals: match self.parent_locals {
                Some(p) => Some(p@),
                None => None,
            },
            parent_local_names: match self.parent_local_names {
                Some(p) => Some(p@),
                None => None,
            },
            outer_names: texts(self.outer_names@),
            block_consts: hash_entries(self.block_consts@),
            slot_names: crate::bytecode::slot_names(self.slot_names@),
        }
    }

    /// A function without parameters and code.
    pub fn new() -> (r: FunctionCompiler)
        ensures
            r.ops() == Seq::<Op>::empty(),
            r.scope() == empty_scope(),
    {
        let r = FunctionCompiler {
            code: Vec::new(),
            locals: IdTable::new(),
            local_names: TextTable::new(),
            next_local: 0,
            captures: IdTable::new(),
            capture_names: TextTable::new(),
            parent_locals: None,
            parent_local_names: None,
            outer_names: Vec::new(),
            block_consts: TextTable::new(),
            slot_names: Vec::new(),
        };
        assert(texts(r.outer_names@) =~= seq![]);
        assert(r.ops() =~= Seq::<Op>::empty());
        assert(crate::bytecode::slot_names(r.slot_names@) =~= seq![]);
        assert(r.scope().block_consts =~= seq![]);
        r
    }

    /// The names that the function can capture.
    fn enclosing_names(&self) -> (r: Vec<String>)
        ensures
            texts(r@) == enclosing_names(self.scope()),
    {
        let mut out = copy_texts(&self.outer_names);
        if let Some(p) = &self.parent_local_names {
            let ghost own = Seq::new(p@.len(), |i: int| p@[i].0);
            let ghost start = texts(out@);
            let mut i: usize = 0;
            assert(start + own.take(0) =~= start);
            while i < p.entries.len()
                invariant
                    i <= p.entries@.len(),
                    own == Seq::new(p@.len(), |i: int| p@[i].0),
                    texts(out@) == start + own.take(i as int),
                decreases p.entries@.len() - i,
            {
                let ghost was = texts(out@);
                out.push(owned(p.entries[i].0.as_str()));
                assert(own[i as int] == p.entries@[i as int].0@);
                assert(texts(out@) =~= was.push(own[i as int]));
                i = i + 1;
                assert(texts(out@) =~= start + own.take(i as int));
            }
            assert(own.take(own.len() as int) =~= own);
        }
        out
    }

    /// A closure in a function, without parameters and code.
    pub fn new_for_closure(outer: &FunctionCompiler) -> (r: FunctionCompiler)
        ensures
            r.ops() == Seq::<Op>::empty(),
            r.scope() == closure_scope(outer.scope()),
    {
        let r = FunctionCompiler {
            code: Vec::new(),
            locals: IdTable::new(),
            local_names: TextTable::new(),
            next_local: 0,
            captures: IdTable::new(),
            capture_names: TextTable::new(),
            parent_locals: Some(outer.locals.copy()),
            parent_local_names: Some(outer.local_names.copy()),
            outer_names: outer.enclosing_names(),
            block_consts: outer.block_consts.copy(),
            slot_names: Vec::new(),
        };
        assert(r.ops() =~= Seq::<Op>::empty());
        assert(crate::bytecode::slot_names(r.slot_names@) =~= seq![]);
        r
    }

    /// The number of instructions so far.
    pub fn here(&self) -> (r: usize)
        ensures
            r == self.ops().len(),
    {
        self.code.len()
    }

    /// Append an instruction.
    pub fn emit(&mut self, instr: Instr)
        ensures
            final(self).ops() == old(self).ops().push(instr@),
            final(self).scope() == old(self).scope(),
    {
        let ghost was = self.ops();
        self.code.push(instr);
        assert(self.ops() =~= was.push(instr@));
    }

    /// Append an instruction without operands.
    pub fn emit_plain(&mut self, op: Opcode)
        ensures
            final(self).ops() == old(self).ops().push(Op::Plain(op)),
            final(self).scope() == old(self).scope(),
    {
        self.emit(Instr::Plain(op));
    }

    /// Replace an instruction.
    pub fn patch(&mut self, at: usize, instr: Instr)
        requires
            at < old(self).ops().len(),
        ensures
            final(self).ops() == old(self).ops().update(at as int, instr@),
            final(self).scope() == old(self).scope(),
    {
        let ghost was = self.ops();
        self.code.set(at, instr);
        assert(self.ops() =~= was.update(at as int, instr@));
    }

    /// Note where the code that follows comes from.
    pub fn record_span(&mut self, span: Span)
        ensures
            final(self).ops() == old(self).ops().push(Op::Mark(span)),
            final(self).scope() == old(self).scope(),
    {
        self.emit(Instr::Mark(span));
    }

    /// Give a binding a local.
    pub fn alloc_local_with_name(&mut self, id: BindingId, name: &str) -> (r: Result<
        u16,
        CompileError,
    >)
        ensures
            final(self).ops() == old(self).ops(),
            match with_local(old(self).scope(), id, name@) {
                Ok(s) => r matches Ok(slot) && slot == old(self).next_local && final(self).scope()
                    == s,
                Err(e) => r matches Err(f) && f@ == e,
            },
    {
        if self.next_local == u16::MAX {
            return Err(
                CompileError::new(
                    CompileErrorKind::TooManyLocals { count: self.next_local as usize + 1 },
                    (0, 0),
                ),
            );
        }
        let slot = self.next_local;
        let ghost names = crate::bytecode::slot_names(self.slot_names@);
        self.next_local = self.next_local + 1;
        self.locals.set(id, slot);
        self.local_names.set(name, slot);
        self.slot_names.push((slot, owned(name)));
        assert(crate::bytecode::slot_names(self.slot_names@) =~= names.push((slot, name@)));
        Ok(slot)
    }

    /// The slot of a binding.
    pub fn get_local(&self, id: BindingId, span: (u32, u32)) -> (r: Result<u16, CompileError>)
        ensures
            match assoc_get(self.scope().locals, id) {
                Some(slot) => r matches Ok(s) && s == slot,
                None => r matches Err(e) && e@ == (ErrorView {
                    kind: KindView::UndefinedLocal { id },
                    span,
                }),
            },
    {
        match self.locals.get(id) {
            Some(slot) => Ok(slot),
            None => Err(CompileError::new(CompileErrorKind::UndefinedLocal { id }, span)),
        }
    }

    /// The slot of a name.
    pub fn get_local_by_name(&self, name: &str) -> (r: Option<u16>)
        ensures
            r == assoc_get(self.scope().local_names, name@),
    {
        self.local_names.get(name)
    }

    /// Whether a binding is one of the enclosing function's.
    pub fn is_parent_binding(&self, id: BindingId) -> (r: bool)
        ensures
            r == is_parent_binding(self.scope(), id),
    {
        match &self.parent_locals {
            Some(p) => p.get(id).is_some() && self.locals.get(id).is_none(),
            None => false,
        }
    }

    /// Whether a name is one of an enclosing function's.
    pub fn is_parent_name(&self, name: &str) -> (r: bool)
        ensures
            r == is_parent_name(self.scope(), name@),
    {
        match &self.parent_local_names {
            Some(p) => (p.get(name).is_some() || contains_text(&self.outer_names, name))
                && self.local_names.get(name).is_none(),
            None => false,
        }
    }

    /// The name under which a binding of the enclosing function is captured.
    pub fn captured_name(&self, id: BindingId) -> (r: String)
        ensures
            r@ == captured_name(self.scope(), id),
    {
        if let Some(p) = &self.parent_locals {
            if let Some(names) = &self.parent_local_names {
                if let Some(slot) = p.get(id) {
                    let ghost all = names@;
                    let mut n: usize = names.entries.len();
                    assert(all.take(n as int) =~= all);
                    while n > 0
                        invariant
                            n <= names.entries@.len(),
                            all == names@,
                            assoc_get(p@, id) == Some(slot),
                            self.scope().parent_locals == Some(p@),
                            self.scope().parent_local_names == Some(names@),
                            name_of_slot(all, slot) == name_of_slot(all.take(n as int), slot),
                        decreases n,
                    {
                        assert(all.take(n as int).drop_last() =~= all.take(n - 1));
                        n = n - 1;
                        if names.entries[n].1 == slot {
                            return owned(names.entries[n].0.as_str());
                        }
                    }
                }
            }
        }
        let mut out = owned("__binding_");
        push_decimal(&mut out, id as u64);
        out
    }

    /// The slot of a binding's captured value.
    pub fn get_or_create_capture(&mut self, id: BindingId, name: &str) -> (r: u16)
        ensures
            r == binding_capture_slot(old(self).scope(), id),
            final(self).scope() == with_binding_capture(old(self).scope(), id, name@),
            final(self).ops() == old(self).ops(),
    {
        match self.captures.get(id) {
            Some(slot) => slot,
            None => {
                let slot: u16 = self.captures.entries.len() as u16;
                self.captures.set(id, slot);
                self.capture_names.set(name, slot);
                slot
            },
        }
    }

    /// The slot of a name's captured value.
    pub fn get_or_create_capture_by_name(&mut self, name: &str) -> (r: u16)
        ensures
            r == capture_slot(old(self).scope(), name@),
            final(self).scope() == with_capture(old(self).scope(), name@),
            final(self).ops() == old(self).ops(),
    {
        match self.capture_names.get(name) {
            Some(slot) => slot,
            None => {
                let slot: u16 = self.capture_names.entries.len() as u16;
                assert(self.capture_names@.len() == self.capture_names.entries@.len());
                self.capture_names.set(name, slot);
                slot
            },
        }
    }

    /// The object of a constant of a block.
    pub fn block_const(&self, name: &str) -> (r: Option<Digest>)
        ensures
            match assoc_get(self.scope().block_consts, name@) {
                Some(h) => r matches Some(d) && d@ == h,
                None => r is None,
            },
    {
        proof {
            lemma_hash_entries(self.block_consts@, name@);
            lemma_assoc_at(self.block_consts@, name@);
        }
        self.block_consts.get(name)
    }

    /// Bind a constant of a block.
    pub fn set_block_const(&mut self, name: &str, hash: Digest)
        ensures
            final(self).ops() == old(self).ops(),
            final(self).scope() == (Scope {
                block_consts: assoc_set(old(self).scope().block_consts, name@, hash@),
                ..old(self).scope()
            }),
    {
        let ghost was = self.block_consts@;
        proof {
            lemma_hash_entries(was, name@);
            lemma_assoc_at(was, name@);
        }
        self.block_consts.set(name, hash);
        assert(hash_entries(self.block_consts@) =~= assoc_set(hash_entries(was), name@, hash@));
    }

    /// The captured names in the order of their slots.
    pub fn get_capture_names_in_order(&self) -> (r: TextTable<u16>)
        ensures
            r@ == by_slot(self.scope().capture_names),
    {
        self.capture_names.in_slot_order()
    }
}

impl TextTable<u16> {
    /// The entries in the order of their slots.
    pub fn in_slot_order(&self) -> (r: TextTable<u16>)
        ensures
            r@ == by_slot(self@),
    {
        let ghost all = self@;
        let source = &self.entries;
        let mut out: TextTable<u16> = TextTable::new();
        let mut i: usize = 0;
        assert(all.take(0) =~= seq![]);
        while i < source.len()
            invariant
                i <= source@.len(),
                source@ == self.entries@,
                all == self@,
                out@ == by_slot(all.take(i as int)),
            decreases source@.len() - i,
        {
            assert(all.take(i + 1).drop_last() =~= all.take(i as int));
            let slot: u16 = source[i].1;
            let name = owned(source[i].0.as_str());
            let ghost x = (name@, slot);
            let ghost was = out@;
            let mut at: usize = out.entries.len();
            assert(was.take(at as int) =~= was);
            while at > 0 && slot < out.entries[at - 1].1
                invariant
                    at <= out.entries@.len(),
                    out@ == was,
                    x == (name@, slot),
                    forall|k: int| at <= k < was.len() ==> x.1 < (#[trigger] was[k]).1,
                decreases at,
            {
                assert(was[at - 1].1 == out.entries@[at - 1].1);
                at = at - 1;
            }
            proof {
                if at > 0 {
                    assert(was[at - 1].1 == out.entries@[at - 1].1);
                }
                lemma_insert_by_slot(was, x, at as int);
            }
            out.entries.insert(at, (name, slot));
            assert(out@ =~= was.insert(at as int, x));
            i = i + 1;
        }
        assert(all.take(source@.len() as int) =~= all);
        out
    }
}

proof fn lemma_insert_by_slot(s: Seq<(Seq<char>, u16)>, x: (Seq<char>, u16), at: int)
    requires
        0 <= at <= s.len(),
        forall|k: int| at <= k < s.len() ==> x.1 < (#[trigger] s[k]).1,
        at > 0 ==> !(x.1 < s[at - 1].1),
    ensures
        insert_by_slot(s, x) == s.insert(at, x),
    decreases s.len(),
{
    if at < s.len() {
        assert(x.1 < s[s.len() - 1].1);
        lemma_insert_by_slot(s.drop_last(), x, at);
        assert(s.insert(at, x) =~= s.drop_last().insert(at, x).push(s.last()));
    } else {
        assert(s.insert(at, x) =~= s.push(x));
    }
}

// ── what a module's names mean ──────────────────────────────────────────────

/// A variant of an enum.
#[derive(Debug)]
pub struct VariantInfo {
    /// The enum.
    pub enum_name: String,
    /// The position of the variant.
    pub tag: u16,
    /// Whether it has a payload.
    pub has_payload: bool,
}

/// What a [`VariantInfo`] says.
pub struct VariantView {
    /// The enum.
    pub enum_name: Seq<char>,
    /// The position of the variant.
    pub tag: u16,
    /// Whether it has a payload.
    pub has_payload: bool,
}

impl View for VariantInfo {
    type V = VariantView;

    open spec fn view(&self) -> VariantView {
        VariantView {
            enum_name: self.enum_name@,
            tag: self.tag,
            has_payload: self.has_payload,
        }
    }
}

impl VariantInfo {
    /// A copy of the variant.
    pub fn copy(&self) -> (r: VariantInfo)
        ensures
            r@ == self@,
    {
        VariantInfo {
            enum_name: owned(self.enum_name.as_str()),
            tag: self.tag,
            has_payload: self.has_payload,
        }
    }
}

/// A method of an ability.
#[derive(Debug)]
pub struct CompiledMethodInfo {
    /// The name.
    pub name: String,
    /// The hash of the signature.
    pub signature: [u8; 32],
    /// Whether it has a default implementation.
    pub has_impl: bool,
    /// Whether it never returns.
    pub never: bool,
}

/// What a [`CompiledMethodInfo`] says.
pub struct MethodInfoView {
    /// The name.
    pub name: Seq<char>,
    /// The hash of the signature.
    pub signature: Seq<u8>,
    /// Whether it has a default implementation.
    pub has_impl: bool,
    /// Whether it never returns.
    pub never: bool,
}

impl View for CompiledMethodInfo {
    type V = MethodInfoView;

    open spec fn view(&self) -> MethodInfoView {
        MethodInfoView {
            name: self.name@,
            signature: self.signature@,
            has_impl: self.has_impl,
            never: self.never,
        }
    }
}

/// An ability.
#[derive(Debug)]
pub struct CompiledAbilityInfo {
    /// The identity at run time.
    pub id: AbilityId,
    /// The identity.
    pub uuid: [u8; 16],
    /// The methods, in order.
    pub methods: Vec<CompiledMethodInfo>,
}

/// What a [`CompiledAbilityInfo`] says.
pub struct AbilityView {
    /// The identity at run time.
    pub id: AbilityId,
    /// The identity.
    pub uuid: Seq<u8>,
    /// The methods, in order.
    pub methods: Seq<MethodInfoView>,
}

/// What methods say.
pub open spec fn method_views(s: Seq<CompiledMethodInfo>) -> Seq<MethodInfoView> {
    Seq::new(s.len(), |i: int| s[i]@)
}

impl View for CompiledAbilityInfo {
    type V = AbilityView;

    open spec fn view(&self) -> AbilityView {
        AbilityView { id: self.id, uuid: self.uuid@, methods: method_views(self.methods@) }
    }
}

/// The position of the first method of a name, from a position on.
pub open spec fn method_from(ms: Seq<MethodInfoView>, name: Seq<char>, i: int) -> Option<int>
    decreases ms.len() - i,
{
    if i < 0 || i >= ms.len() {
        None
    } else if ms[i].name == name {
        Some(i)
    } else {
        method_from(ms, name, i + 1)
    }
}

/// The dispatch symbol of the default implementation of a method.
pub open spec fn impl_symbol(uuid: Seq<u8>, method: Seq<char>) -> Seq<char> {
    uuid_text(uuid) + "::"@ + method
}

/// The dispatch symbol of the default implementation of a method.
pub(crate) fn method_symbol(uuid: &[u8; 16], method: &str) -> (r: String)
    ensures
        r@ == impl_symbol(uuid@, method@),
{
    let mut out = uuid_to_text(uuid);
    push_text(&mut out, "::");
    push_text(&mut out, method);
    out
}

impl CompiledAbilityInfo {
    /// The first method of a name.
    pub fn method(&self, name: &str) -> (r: Option<&CompiledMethodInfo>)
        ensures
            match method_from(self@.methods, name@, 0) {
                Some(i) => r matches Some(m) && m@ == self@.methods[i],
                None => r is None,
            },
    {
        let ghost ms = self@.methods;
        let mut i: usize = 0;
        while i < self.methods.len()
            invariant
                i <= self.methods@.len(),
                ms == self@.methods,
                method_from(ms, name@, 0) == method_from(ms, name@, i as int),
            decreases self.methods@.len() - i,
        {
            assert(ms[i as int] == self.methods@[i as int]@);
            if text_same(self.methods[i].name.as_str(), name) {
                return Some(&self.methods[i]);
            }
            i = i + 1;
        }
        None
    }

    /// The dispatch symbol of the default implementation of a method.
    pub fn impl_symbol(&self, method: &str) -> (r: String)
        ensures
            r@ == impl_symbol(self@.uuid, method@),
    {
        method_symbol(&self.uuid, method)
    }

    /// A copy of the ability.
    pub fn copy(&self) -> (r: CompiledAbilityInfo)
        ensures
            r@ == self@,
    {
        let mut methods: Vec<CompiledMethodInfo> = Vec::new();
        let mut i: usize = 0;
        while i < self.methods.len()
            invariant
                i <= self.methods@.len(),
                methods@.len() == i,
                forall|k: int| 0 <= k < i ==> (#[trigger] methods@[k])@ == self.methods@[k]@,
            decreases self.methods@.len() - i,
        {
            let m = &self.methods[i];
            methods.push(
                CompiledMethodInfo {
                    name: owned(m.name.as_str()),
                    signature: m.signature,
                    has_impl: m.has_impl,
                    never: m.never,
                },
            );
            i = i + 1;
        }
        let r = CompiledAbilityInfo { id: self.id, uuid: self.uuid, methods };
        assert(r@.methods =~= self@.methods);
        r
    }
}

/// A table of abilities.
#[derive(Debug)]
pub struct AbilityTable {
    /// The entries, each key once.
    pub entries: Vec<(NameKey, CompiledAbilityInfo)>,
}

impl View for AbilityTable {
    type V = Seq<(KeyView, AbilityView)>;

    open spec fn view(&self) -> Seq<(KeyView, AbilityView)> {
        Seq::new(self.entries@.len(), |i: int| (self.entries@[i].0@, self.entries@[i].1@))
    }
}

impl AbilityTable {
    /// An empty table.
    pub fn new() -> (r: AbilityTable)
        ensures
            r@ == Seq::<(KeyView, AbilityView)>::empty(),
    {
        let r = AbilityTable { entries: Vec::new() };
        assert(r@ =~= Seq::<(KeyView, AbilityView)>::empty());
        r
    }

    /// Where a key stands.
    fn find(&self, key: &NameKey) -> (r: Option<usize>)
        ensures
            match r {
                Some(i) => i == assoc_at(self@, key@) && i < self.entries@.len(),
                None => assoc_at(self@, key@) == -1,
            },
    {
        let mut n: usize = self.entries.len();
        while n > 0
            invariant
                n <= self.entries@.len(),
                forall|i: int| n <= i < self.entries@.len() ==> (#[trigger] self@[i]).0 != key@,
            decreases n,
        {
            n = n - 1;
            if self.entries[n].0.same(key) {
                proof {
                    lemma_assoc_found(self@, key@, n as int);
                }
                return Some(n);
            }
            assert(self@[n as int].0 != key@);
        }
        proof {
            lemma_assoc_found(self@, key@, -1);
        }
        None
    }

    /// The ability of a key.
    pub fn get(&self, key: &NameKey) -> (r: Option<&CompiledAbilityInfo>)
        ensures
            match assoc_get(self@, key@) {
                Some(a) => r matches Some(b) && b@ == a,
                None => r is None,
            },
    {
        match self.find(key) {
            Some(i) => Some(&self.entries[i].1),
            None => None,
        }
    }

    /// Bind a key.
    pub fn insert(&mut self, key: NameKey, ability: CompiledAbilityInfo)
        ensures
            final(self)@ == assoc_set(old(self)@, key@, ability@),
    {
        let ghost was = self@;
        let ghost x = (key@, ability@);
        match self.find(&key) {
            Some(i) => {
                self.entries.set(i, (key, ability));
                assert(self@ =~= was.update(i as int, x));
            },
            None => {
                self.entries.push((key, ability));
                assert(self@ =~= was.push(x));
            },
        }
    }

    /// The first ability of an identity, with its own name.
    fn by_id(&self, id: AbilityId) -> (r: Option<(String, &CompiledAbilityInfo)>)
        ensures
            match ability_from(self@, id, 0) {
                Some(i) => r matches Some((n, b)) && n@ == own_name(self@[i].0) && b@
                    == self@[i].1,
                None => r is None,
            },
    {
        let ghost all = self@;
        let mut i: usize = 0;
        while i < self.entries.len()
            invariant
                i <= self.entries@.len(),
                all == self@,
                ability_from(all, id, 0) == ability_from(all, id, i as int),
            decreases self.entries@.len() - i,
        {
            assert(all[i as int] == (self.entries@[i as int].0@, self.entries@[i as int].1@));
            if self.entries[i].1.id == id {
                let name = match &self.entries[i].0 {
                    NameKey::Bare(s) => owned(s.as_str()),
                    NameKey::Item(f) => owned(f.name()),
                };
                return Some((name, &self.entries[i].1));
            }
            i = i + 1;
        }
        None
    }
}

/// What the names of a module mean while its functions are compiled.
#[derive(Debug)]
pub struct ModuleTables {
    /// The hashes of functions: temporary for the module's own, final for
    /// those of other modules.
    pub function_hashes: NameTable<Digest>,
    /// The variants of enums, by their own names.
    pub enums: OrdMap<String, VariantInfo>,
    /// The variants of other modules' enums, by their full names.
    pub foreign_variants: NameTable<VariantInfo>,
    /// The structs that are values.
    pub unit_structs: NameTable<()>,
    /// The functions without parameters that stand for constants: their names
    /// mean what they return.
    pub thunks: NameTable<()>,
    /// The objects of constants.
    pub const_hashes: NameTable<Digest>,
    /// The module's own abilities, by their own names.
    pub abilities: AbilityTable,
    /// The abilities of other modules, by their full names.
    pub foreign_abilities: AbilityTable,
    /// The identity of the module, if it has one.
    pub module_id: Option<ModuleId>,
}

/// What [`ModuleTables`] say.
pub struct TablesView {
    /// The hashes of functions.
    pub function_hashes: Map<KeyView, Seq<u8>>,
    /// The variants of enums, by their own names.
    pub enums: Map<Seq<char>, VariantView>,
    /// The variants of other modules' enums, by their full names.
    pub foreign_variants: Map<KeyView, VariantView>,
    /// The structs that are values.
    pub unit_structs: Set<KeyView>,
    /// The functions without parameters that stand for constants.
    pub thunks: Set<KeyView>,
    /// The objects of constants.
    pub const_hashes: Map<KeyView, Seq<u8>>,
    /// The module's own abilities, by their own names.
    pub abilities: Seq<(KeyView, AbilityView)>,
    /// The abilities of other modules, by their full names.
    pub foreign_abilities: Seq<(KeyView, AbilityView)>,
    /// The identity of the module, if it has one.
    pub module_id: Option<ModuleView>,
}

/// What variants by their own names say.
pub open spec fn variant_map(m: Map<Seq<char>, VariantInfo>) -> Map<Seq<char>, VariantView> {
    m.map_values(|v: VariantInfo| v@)
}

/// What variants by their full names say.
pub open spec fn full_variant_map(m: Map<KeyView, VariantInfo>) -> Map<KeyView, VariantView> {
    m.map_values(|v: VariantInfo| v@)
}

/// What the identity of a module says, if it has one.
pub open spec fn opt_module(m: Option<ModuleId>) -> Option<ModuleView> {
    match m {
        Some(id) => Some(id@),
        None => None,
    }
}

impl View for ModuleTables {
    type V = TablesView;

    open spec fn view(&self) -> TablesView {
        TablesView {
            function_hashes: key_hashes(self.function_hashes@),
            enums: variant_map(self.enums@),
            foreign_variants: full_variant_map(self.foreign_variants@),
            unit_structs: self.unit_structs@.dom(),
            thunks: self.thunks@.dom(),
            const_hashes: key_hashes(self.const_hashes@),
            abilities: self.abilities@,
            foreign_abilities: self.foreign_abilities@,
            module_id: opt_module(self.module_id),
        }
    }
}

/// The tables of a module that knows no names.
pub open spec fn empty_tables(module_id: Option<ModuleView>) -> TablesView {
    TablesView {
        function_hashes: Map::empty(),
        enums: Map::empty(),
        foreign_variants: Map::empty(),
        unit_structs: Set::empty(),
        thunks: Set::empty(),
        const_hashes: Map::empty(),
        abilities: seq![],
        foreign_abilities: seq![],
        module_id,
    }
}

/// What a map gives a key.
pub open spec fn bound_to<K, V>(m: Map<K, V>, k: K) -> Option<V> {
    if m.contains_key(k) {
        Some(m[k])
    } else {
        None
    }
}

/// The variant of another module that a name means.
pub open spec fn foreign_variant(t: TablesView, n: QualifiedName) -> Option<VariantView> {
    match n.resolved {
        Some(f) => bound_to(t.foreign_variants, KeyView::Item(f@)),
        None => None,
    }
}

/// The variant that a name means: one of another module by its full name, else
/// one in scope by its own name.
pub open spec fn variant_of(t: TablesView, n: QualifiedName) -> Option<VariantView> {
    match foreign_variant(t, n) {
        Some(v) => Some(v),
        None => bound_to(t.enums, n.name@),
    }
}

/// The own name of a key: the last segment of an item, or the bare string.
pub open spec fn own_name(k: KeyView) -> Seq<char> {
    match k {
        KeyView::Bare(s) => s,
        KeyView::Item(f) => if f.ident.len() > 0 {
            f.ident.last()
        } else {
            ""@
        },
    }
}

/// The ability that a name means: a name of this module by its own name, one of
/// another module by its full name.
pub open spec fn ability_of(t: TablesView, n: QualifiedName) -> Option<AbilityView> {
    match n.resolved {
        Some(f) => {
            let own = assoc_get(t.abilities, KeyView::Bare(own_name(KeyView::Item(f@))));
            if t.module_id == Some(f@.module) && own is Some {
                own
            } else {
                assoc_get(t.foreign_abilities, KeyView::Item(f@))
            }
        },
        None => assoc_get(t.abilities, KeyView::Bare(n.name@)),
    }
}

/// The position of the first ability with an identity, from a position on.
pub open spec fn ability_from(s: Seq<(KeyView, AbilityView)>, id: AbilityId, i: int) -> Option<int>
    decreases s.len() - i,
{
    if i < 0 || i >= s.len() {
        None
    } else if s[i].1.id == id {
        Some(i)
    } else {
        ability_from(s, id, i + 1)
    }
}

/// The name and description of the ability of an identity: one of the module's
/// own, else one of another module.
pub open spec fn ability_by_id(t: TablesView, id: AbilityId) -> Option<(Seq<char>, AbilityView)> {
    match ability_from(t.abilities, id, 0) {
        Some(i) => Some((own_name(t.abilities[i].0), t.abilities[i].1)),
        None => match ability_from(t.foreign_abilities, id, 0) {
            Some(i) => Some((own_name(t.foreign_abilities[i].0), t.foreign_abilities[i].1)),
            None => None,
        },
    }
}

/// What a key of functions is bound to.
pub open spec fn function_hash(t: TablesView, k: KeyView) -> Option<Seq<u8>> {
    bound_to(t.function_hashes, k)
}

impl ModuleTables {
    /// Tables without names.
    pub fn new(module_id: Option<ModuleId>) -> (r: ModuleTables)
        ensures
            r@ == empty_tables(opt_module(module_id)),
    {
        let r = ModuleTables {
            function_hashes: NameTable::new(),
            enums: OrdMap::new(),
            foreign_variants: NameTable::new(),
            unit_structs: NameTable::new(),
            thunks: NameTable::new(),
            const_hashes: NameTable::new(),
            abilities: AbilityTable::new(),
            foreign_abilities: AbilityTable::new(),
            module_id,
        };
        assert(r@.function_hashes =~= Map::empty());
        assert(r@.enums =~= Map::empty());
        assert(r@.foreign_variants =~= Map::empty());
        assert(r@.unit_structs =~= Set::empty());
        assert(r@.thunks =~= Set::empty());
        assert(r@.const_hashes =~= Map::empty());
        r
    }

    /// The hash of a function.
    pub fn function_hash(&self, key: &NameKey) -> (r: Option<Digest>)
        ensures
            match function_hash(self@, key@) {
                Some(h) => r matches Some(d) && d@ == h,
                None => r is None,
            },
    {
        match self.function_hashes.get(key) {
            Some(h) => Some(*h),
            None => None,
        }
    }

    /// The hash of the function of a dispatch symbol.
    pub fn symbol_hash(&self, symbol: &str) -> (r: Option<Digest>)
        ensures
            match function_hash(self@, KeyView::Bare(symbol@)) {
                Some(h) => r matches Some(d) && d@ == h,
                None => r is None,
            },
    {
        let key = NameKey::Bare(owned(symbol));
        self.function_hash(&key)
    }

    /// The object of a constant.
    pub fn constant_hash(&self, key: &NameKey) -> (r: Option<Digest>)
        ensures
            match bound_to(self@.const_hashes, key@) {
                Some(h) => r matches Some(d) && d@ == h,
                None => r is None,
            },
    {
        match self.const_hashes.get(key) {
            Some(h) => Some(*h),
            None => None,
        }
    }

    /// The variant that a name means.
    pub fn variant(&self, n: &QualifiedName) -> (r: Option<&VariantInfo>)
        ensures
            match variant_of(self@, *n) {
                Some(v) => r matches Some(w) && w@ == v,
                None => r is None,
            },
    {
        if let Some(f) = &n.resolved {
            let key = NameKey::Item(f.copy());
            if let Some(v) = self.foreign_variants.get(&key) {
                return Some(v);
            }
        }
        self.enums.get(&n.name)
    }

    /// The ability that a name means.
    pub fn resolve_ability(&self, n: &QualifiedName) -> (r: Option<&CompiledAbilityInfo>)
        ensures
            match ability_of(self@, *n) {
                Some(a) => r matches Some(b) && b@ == a,
                None => r is None,
            },
    {
        match &n.resolved {
            Some(f) => {
                let own = match &self.module_id {
                    Some(id) => id.same(&f.module),
                    None => false,
                };
                if own {
                    let bare = NameKey::Bare(owned(f.name()));
                    if let Some(a) = self.abilities.get(&bare) {
                        return Some(a);
                    }
                }
                let key = NameKey::Item(f.copy());
                self.foreign_abilities.get(&key)
            },
            None => {
                let bare = NameKey::Bare(owned(n.name.as_str()));
                self.abilities.get(&bare)
            },
        }
    }

    /// The ability of an identity, with its name.
    pub fn ability_by_id(&self, id: AbilityId) -> (r: Option<(String, &CompiledAbilityInfo)>)
        ensures
            match ability_by_id(self@, id) {
                Some((name, a)) => r matches Some((n, b)) && n@ == name && b@ == a,
                None => r is None,
            },
    {
        match self.abilities.by_id(id) {
            Some(found) => Some(found),
            None => self.foreign_abilities.by_id(id),
        }
    }
}

// ── what functions produce besides their code ───────────────────────────────

/// What the functions of a module have produced besides their code.
pub struct Produced {
    /// The lambdas: temporary hash, name of the function it stands in, function.
    pub lambdas: Seq<(Seq<u8>, Seq<char>, FunctionView)>,
    /// The number of temporary hashes handed out.
    pub counter: u32,
    /// The objects of the constants of blocks.
    pub const_objects: Map<Seq<u8>, ObjectView>,
    /// The name of the function that is being compiled.
    pub current: Seq<char>,
}

/// What the functions of a module have produced besides their code.
#[derive(Debug)]
pub struct ModuleContext {
    /// The lambdas: temporary hash, name of the function it stands in, function.
    pub lambdas: Vec<(Digest, String, CompiledFunction)>,
    /// The number of temporary hashes handed out.
    pub lambda_counter: u32,
    /// The objects of the constants of blocks.
    pub const_objects: OrdMap<Digest, StoredObject>,
    /// The name of the function that is being compiled.
    pub current_function: String,
}

/// What lambdas say.
pub open spec fn lambda_views(s: Seq<(Digest, String, CompiledFunction)>) -> Seq<
    (Seq<u8>, Seq<char>, FunctionView),
> {
    Seq::new(s.len(), |i: int| (s[i].0@, s[i].1@, s[i].2@))
}

impl View for ModuleContext {
    type V = Produced;

    open spec fn view(&self) -> Produced {
        Produced {
            lambdas: lambda_views(self.lambdas@),
            counter: self.lambda_counter,
            const_objects: object_map(self.const_objects@),
            current: self.current_function@,
        }
    }
}

/// The temporary hash of the lambda of a number.
pub open spec fn lambda_hash(n: u32) -> Seq<u8> {
    blake3_hash(vstd::utf8::encode_utf8("__lambda__"@) + u32_bytes(n))
}

/// The number that follows another.
pub open spec fn next_number(n: u32) -> u32 {
    if n == u32::MAX {
        0
    } else {
        (n + 1) as u32
    }
}

/// One more temporary hash handed out.
pub open spec fn counted(p: Produced) -> Produced {
    Produced { counter: next_number(p.counter), ..p }
}

/// One more lambda, under the next temporary hash.
pub open spec fn with_lambda(p: Produced, f: FunctionView) -> Produced {
    Produced {
        lambdas: p.lambdas.push((lambda_hash(p.counter), p.current, f)),
        ..counted(p)
    }
}

impl ModuleContext {
    /// Nothing produced yet.
    pub fn new() -> (r: ModuleContext)
        ensures
            r@ == (Produced {
                lambdas: seq![],
                counter: 0,
                const_objects: Map::empty(),
                current: "__unknown__"@,
            }),
    {
        let r = ModuleContext {
            lambdas: Vec::new(),
            lambda_counter: 0,
            const_objects: OrdMap::new(),
            current_function: owned("__unknown__"),
        };
        assert(r@.lambdas =~= seq![]);
        assert(r@.const_objects =~= Map::empty());
        r
    }

    /// Name the function that is being compiled.
    pub fn set_current_function(&mut self, name: &str)
        ensures
            final(self)@ == (Produced { current: name@, ..old(self)@ }),
    {
        self.current_function = owned(name);
    }

    /// The next temporary hash.
    pub fn next_lambda_hash(&mut self) -> (r: Digest)
        ensures
            r@ == lambda_hash(old(self)@.counter),
            final(self)@ == counted(old(self)@),
    {
        let mut bytes = vstd::slice::slice_to_vec("__lambda__".as_bytes());
        crate::wire::Wire::put(&self.lambda_counter, &mut bytes);
        self.lambda_counter = if self.lambda_counter == u32::MAX {
            0
        } else {
            self.lambda_counter + 1
        };
        Digest::of(bytes.as_slice())
    }

    /// Add a lambda of the function that is being compiled.
    pub fn register_lambda(&mut self, function: CompiledFunction) -> (r: Digest)
        ensures
            r@ == lambda_hash(old(self)@.counter),
            final(self)@ == with_lambda(old(self)@, function@),
    {
        let ghost was = self@;
        let hash = self.next_lambda_hash();
        let parent = owned(self.current_function.as_str());
        self.lambdas.push((hash, parent, function));
        assert(self@.lambdas =~= with_lambda(was, function@).lambdas);
        hash
    }
}

} // verus!
