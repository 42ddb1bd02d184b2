//! Compiled functions.

use vstd::prelude::*;

use crate::digest::Digest;
use crate::text::{copy_opt_text, opt_text, owned};

verus! {

broadcast use {vstd::string::group_string_axioms, vstd::array::group_array_axioms};

/// A method of an ability, as a perform site or a handler arm names it.
#[derive(Debug, Clone, Copy, PartialEq, Eq)]
pub struct AbilityMethodRef {
    /// The identity of the ability.
    pub ability_id: u64,
    /// The uuid of the ability's declaration.
    pub ability_uuid: [u8; 16],
    /// The canonical signature hash of the method.
    pub signature: [u8; 32],
    /// The default implementation, if there is one.
    pub impl_fn: Option<Digest>,
    /// Whether a perform of the method never returns.
    pub never: bool,
}

/// A constant of a function.
#[derive(Debug)]
pub enum Constant {
    /// The unit value.
    Unit,
    /// A boolean.
    Bool(bool),
    /// A number, by its IEEE-754 bits.
    Number(u64),
    /// Text.
    String(String),
    /// A reference to a function.
    Function(Digest),
    /// A reference to the object of a constant.
    Object(Digest),
    /// A reference to a method of an ability.
    Method(AbilityMethodRef),
    /// A value of the running program that no object can hold.
    Runtime,
}

/// What an [`AbilityMethodRef`] says.
pub struct MethodView {
    /// The identity of the ability.
    pub ability_id: u64,
    /// The uuid of the ability's declaration.
    pub ability_uuid: Seq<u8>,
    /// The canonical signature hash of the method.
    pub signature: Seq<u8>,
    /// The default implementation.
    pub impl_fn: Option<Seq<u8>>,
    /// Whether a perform of the method never returns.
    pub never: bool,
}

impl View for AbilityMethodRef {
    type V = MethodView;

    open spec fn view(&self) -> MethodView {
        MethodView {
            ability_id: self.ability_id,
            ability_uuid: self.ability_uuid@,
            signature: self.signature@,
            impl_fn: match self.impl_fn {
                Some(h) => Some(h@),
                None => None,
            },
            never: self.never,
        }
    }
}

/// What a [`Constant`] says.
pub enum ConstantView {
    /// The unit value.
    Unit,
    /// A boolean.
    Bool(bool),
    /// A number, by its IEEE-754 bits.
    Number(u64),
    /// Text.
    String(Seq<char>),
    /// A reference to a function.
    Function(Seq<u8>),
    /// A reference to the object of a constant.
    Object(Seq<u8>),
    /// A reference to a method of an ability.
    Method(MethodView),
    /// A value of the running program that no object can hold.
    Runtime,
}

impl View for Constant {
    type V = ConstantView;

    open spec fn view(&self) -> ConstantView {
        match *self {
            Constant::Unit => ConstantView::Unit,
            Constant::Bool(b) => ConstantView::Bool(b),
            Constant::Number(n) => ConstantView::Number(n),
            Constant::String(s) => ConstantView::String(s@),
            Constant::Function(h) => ConstantView::Function(h@),
            Constant::Object(h) => ConstantView::Object(h@),
            Constant::Method(m) => ConstantView::Method(m@),
            Constant::Runtime => ConstantView::Runtime,
        }
    }
}

/// What some constants say.
pub open spec fn constant_views(s: Seq<Constant>) -> Seq<ConstantView> {
    Seq::new(s.len(), |i: int| s[i]@)
}

/// The bytes of some hashes.
pub open spec fn digest_views(s: Seq<Digest>) -> Seq<Seq<u8>> {
    Seq::new(s.len(), |i: int| s[i]@)
}

/// A place in the bytecode and the source it was compiled from.
#[derive(Debug, Clone, Copy, PartialEq, Eq)]
pub struct SourceMapping {
    /// The offset in the bytecode.
    pub bytecode_offset: usize,
    /// Where the source begins.
    pub source_start: usize,
    /// Where the source ends.
    pub source_end: usize,
    /// The line, counted from one; zero where it is not known.
    pub line: u32,
    /// The column, counted from one; zero where it is not known.
    pub column: u32,
}

/// What a debugger needs to know of a function.
#[derive(Debug)]
pub struct DebugInfo {
    /// The name of the function.
    pub function_name: Option<String>,
    /// The source file.
    pub source_file: Option<String>,
    /// The source of the bytecode.
    pub source_map: Vec<SourceMapping>,
    /// The names of the local slots.
    pub local_names: Vec<(u16, String)>,
}

/// What a [`DebugInfo`] says.
pub struct DebugView {
    /// The name of the function.
    pub function_name: Option<Seq<char>>,
    /// The source file.
    pub source_file: Option<Seq<char>>,
    /// The source of the bytecode.
    pub source_map: Seq<SourceMapping>,
    /// The names of the local slots.
    pub local_names: Seq<(u16, Seq<char>)>,
}

impl View for DebugInfo {
    type V = DebugView;

    open spec fn view(&self) -> DebugView {
        DebugView {
            function_name: opt_text(self.function_name),
            source_file: opt_text(self.source_file),
            source_map: self.source_map@,
            local_names: slot_names(self.local_names@),
        }
    }
}

/// The names of some local slots.
pub open spec fn slot_names(s: Seq<(u16, String)>) -> Seq<(u16, Seq<char>)> {
    Seq::new(s.len(), |i: int| (s[i].0, s[i].1@))
}

/// What optional debug information says.
pub open spec fn debug_view(d: Option<DebugInfo>) -> Option<DebugView> {
    match d {
        Some(d) => Some(d@),
        None => None,
    }
}

impl DebugInfo {
    /// A copy of the information.
    pub fn copy(&self) -> (r: DebugInfo)
        ensures
            r@ == self@,
    {
        let mut source_map: Vec<SourceMapping> = Vec::new();
        let mut i: usize = 0;
        while i < self.source_map.len()
            invariant
                i <= self.source_map@.len(),
                source_map@ == self.source_map@.take(i as int),
            decreases self.source_map@.len() - i,
        {
            source_map.push(self.source_map[i]);
            i = i + 1;
        }
        assert(source_map@ =~= self.source_map@);
        let mut local_names: Vec<(u16, String)> = Vec::new();
        let mut k: usize = 0;
        while k < self.local_names.len()
            invariant
                k <= self.local_names@.len(),
                slot_names(local_names@) == slot_names(self.local_names@).take(k as int),
            decreases self.local_names@.len() - k,
        {
            let ghost was = local_names@;
            local_names.push((self.local_names[k].0, owned(self.local_names[k].1.as_str())));
            assert(slot_names(local_names@) =~= slot_names(was).push(
                slot_names(self.local_names@)[k as int],
            ));
            k = k + 1;
            assert(slot_names(local_names@) =~= slot_names(self.local_names@).take(k as int));
        }
        assert(slot_names(local_names@) =~= slot_names(self.local_names@));
        DebugInfo {
            function_name: copy_opt_text(&self.function_name),
            source_file: copy_opt_text(&self.source_file),
            source_map,
            local_names,
        }
    }
}

/// A compiled function.
#[derive(Debug)]
pub struct CompiledFunction {
    /// The content hash, or a temporary one before finalization.
    pub hash: Digest,
    /// The instructions.
    pub bytecode: Vec<u8>,
    /// The constants.
    pub constants: Vec<Constant>,
    /// The number of local slots.
    pub local_count: u16,
    /// The number of parameters.
    pub param_count: u8,
    /// The objects that the function refers to by hash.
    pub dependencies: Vec<Digest>,
    /// What a debugger needs to know.
    pub debug_info: Option<DebugInfo>,
}

/// What a [`CompiledFunction`] says.
pub struct FunctionView {
    /// The hash.
    pub hash: Seq<u8>,
    /// The instructions.
    pub bytecode: Seq<u8>,
    /// The constants.
    pub constants: Seq<ConstantView>,
    /// The number of local slots.
    pub local_count: u16,
    /// The number of parameters.
    pub param_count: u8,
    /// The objects that the function refers to by hash.
    pub dependencies: Seq<Seq<u8>>,
    /// What a debugger needs to know.
    pub debug: Option<DebugView>,
}

impl View for CompiledFunction {
    type V = FunctionView;

    open spec fn view(&self) -> FunctionView {
        FunctionView {
            hash: self.hash@,
            bytecode: self.bytecode@,
            constants: constant_views(self.constants@),
            local_count: self.local_count,
            param_count: self.param_count,
            dependencies: digest_views(self.dependencies@),
            debug: debug_view(self.debug_info),
        }
    }
}

impl Constant {
    /// A copy of the constant.
    pub fn copy(&self) -> (r: Constant)
        ensures
            r@ == self@,
    {
        match self {
            Constant::Unit => Constant::Unit,
            Constant::Bool(b) => Constant::Bool(*b),
            Constant::Number(n) => Constant::Number(*n),
            Constant::String(s) => Constant::String(owned(s.as_str())),
            Constant::Function(h) => Constant::Function(*h),
            Constant::Object(h) => Constant::Object(*h),
            Constant::Method(m) => Constant::Method(*m),
            Constant::Runtime => Constant::Runtime,
        }
    }
}

/// The hash that a constant refers to as a function, if it refers to one: a
/// function reference, or the default implementation of an ability method.
pub open spec fn constant_ref(c: ConstantView) -> Option<Seq<u8>> {
    match c {
        ConstantView::Function(h) => Some(h),
        ConstantView::Method(m) => m.impl_fn,
        _ => None,
    }
}

/// The hash that a constant refers to, if it refers to one: as a function or
/// as the object of a constant.
pub open spec fn constant_target(c: ConstantView) -> Option<Seq<u8>> {
    match c {
        ConstantView::Object(h) => Some(h),
        _ => constant_ref(c),
    }
}

/// The hashes that constants refer to, in order.
pub open spec fn constant_targets(cs: Seq<ConstantView>) -> Seq<Seq<u8>>
    decreases cs.len(),
{
    if cs.len() == 0 {
        seq![]
    } else {
        match constant_target(cs.last()) {
            Some(h) => constant_targets(cs.drop_last()).push(h),
            None => constant_targets(cs.drop_last()),
        }
    }
}

/// Everything that a function refers to by hash: what its constants refer to,
/// then its dependencies.
pub open spec fn function_targets(f: FunctionView) -> Seq<Seq<u8>> {
    constant_targets(f.constants) + f.dependencies
}

/// Copy a list of hashes.
pub fn copy_digests(hashes: &Vec<Digest>) -> (r: Vec<Digest>)
    ensures
        digest_views(r@) == digest_views(hashes@),
        r@ == hashes@,
{
    let mut out: Vec<Digest> = Vec::new();
    let mut i: usize = 0;
    while i < hashes.len()
        invariant
            i <= hashes@.len(),
            out@ == hashes@.take(i as int),
        decreases hashes@.len() - i,
    {
        out.push(hashes[i]);
        assert(out@ =~= hashes@.take(i + 1));
        i = i + 1;
    }
    assert(out@ =~= hashes@);
    out
}

/// Copy a list of constants.
pub fn copy_constants(constants: &Vec<Constant>) -> (r: Vec<Constant>)
    ensures
        constant_views(r@) == constant_views(constants@),
{
    let mut out: Vec<Constant> = Vec::new();
    let mut i: usize = 0;
    while i < constants.len()
        invariant
            i <= constants@.len(),
            out@.len() == i,
            forall|j: int| 0 <= j < i ==> (#[trigger] out@[j])@ == constants@[j]@,
        decreases constants@.len() - i,
    {
        out.push(constants[i].copy());
        i = i + 1;
    }
    assert(constant_views(out@) =~= constant_views(constants@));
    out
}

impl CompiledFunction {
    /// A copy of the function.
    pub fn copy(&self) -> (r: CompiledFunction)
        ensures
            r@ == self@,
    {
        CompiledFunction {
            hash: self.hash,
            bytecode: crate::wire::copy_bytes(&self.bytecode),
            constants: copy_constants(&self.constants),
            local_count: self.local_count,
            param_count: self.param_count,
            dependencies: copy_digests(&self.dependencies),
            debug_info: match &self.debug_info {
                Some(d) => Some(d.copy()),
                None => None,
            },
        }
    }

    /// Everything that the function refers to by hash: what its constants
    /// refer to, then its dependencies.
    pub fn referenced_hashes(&self) -> (r: Vec<Digest>)
        ensures
            digest_views(r@) == function_targets(self@),
    {
        let mut out: Vec<Digest> = Vec::new();
        let ghost cs = constant_views(self.constants@);
        let mut i: usize = 0;
        assert(cs.take(0) =~= seq![]);
        assert(digest_views(out@) =~= seq![]);
        while i < self.constants.len()
            invariant
                i <= self.constants@.len(),
                cs == constant_views(self.constants@),
                digest_views(out@) == constant_targets(cs.take(i as int)),
            decreases self.constants@.len() - i,
        {
            let ghost before = digest_views(out@);
            assert(cs.take(i + 1).drop_last() =~= cs.take(i as int));
            assert(cs.take(i + 1).last() == self.constants@[i as int]@);
            match &self.constants[i] {
                Constant::Function(h) => {
                    out.push(*h);
                    assert(digest_views(out@) =~= before.push(h@));
                },
                Constant::Object(h) => {
                    out.push(*h);
                    assert(digest_views(out@) =~= before.push(h@));
                },
                Constant::Method(m) => {
                    if let Some(h) = m.impl_fn {
                        out.push(h);
                        assert(digest_views(out@) =~= before.push(h@));
                    }
                },
                _ => {},
            }
            i = i + 1;
        }
        assert(cs.take(cs.len() as int) =~= cs);
        let ghost first = digest_views(out@);
        let ghost deps = digest_views(self.dependencies@);
        let mut j: usize = 0;
        assert(first + deps.take(0) =~= first);
        while j < self.dependencies.len()
            invariant
                j <= self.dependencies@.len(),
                deps == digest_views(self.dependencies@),
                digest_views(out@) == first + deps.take(j as int),
            decreases self.dependencies@.len() - j,
        {
            let ghost before = digest_views(out@);
            out.push(self.dependencies[j]);
            assert(digest_views(out@) =~= before.push(deps[j as int]));
            assert(digest_views(out@) =~= first + deps.take(j + 1));
            j = j + 1;
        }
        assert(deps.take(deps.len() as int) =~= deps);
        out
    }
}

} // verus!
