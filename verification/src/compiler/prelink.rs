//! The pre-link form of a module: what it was assembled from, kept as bytes.
//!
//! When only the body of a dependency has changed, the module need not be
//! compiled again: its pre-link form is read back, the hashes that have moved
//! are replaced, and the module is assembled anew.
//!
//! ```text
//! magic "ABPL" | version u8
//! functions:   u32 | [ name:str, is_main u8, temp_hash[32], plain-object:blob ]
//! lambdas:     u32 | [ temp_hash[32], parent:str, plain-object:blob ]
//! groups:      u32 | [ symbol:str, uuid_string:str ]
//! consts:      u32 | [ value-object:blob ]
//! natives:     u32 | [ native-object:blob ]
//! constNames:  u32 | [ name:str, hash[32] ]
//! nativeNames: u32 | [ name:str, hash[32] ]
//! migrations:  u32 | [ cell:str, old:str, new:str ]
//! checks:      u32 | [ symbol:str, uuid[16], sig?(u8,[32]), ability:str, method:str, span(u32,u32) ]
//! signatures:  u32 | [ name:str, sig:str ]
//! ```

use vstd::prelude::*;

use vstd::utf8::encode_utf8;

use crate::bytecode::{
    constant_views, digest_views, AbilityMethodRef, CompiledFunction, Constant, ConstantView,
    FunctionView, MethodView,
};
use crate::compiler::assemble::{
    check_views, opt_signature, text_map, AbilityMethodCheck, AssembleInputs, CheckView,
};
use crate::compiler::module_output::{
    copy_migrations, kept, migration_views, object_map, MigrationRecord,
};
use crate::digest::Digest;
use crate::object::{
    function_from_compiled, load_function, loaded_constant, loaded_constants, loaded_function,
    loaded_refs, object_bytes, object_fits, object_parse, object_reads_back,
    object_reads_only_encodings, plain_function_loads_back, resolved, storable, stored_constant,
    stored_function, subst_view, ObjectConstantView, ObjectFunction, ObjectFunctionView, ObjectRef,
    ObjectView, RefView, StoredObject,
};
use crate::order::text_before;
use crate::ordmap::OrdMap;
use crate::sorting::{single_ranks, sorted, stable_sort, Ranked};
use crate::text::{decimal_text, owned, push_decimal, push_text};
use crate::wire::{
    blob_bytes, blob_cut_short, blob_reads_back, blob_reads_only_encodings, contents, get_blob,
    parse_blob, put_blob, ObjectFault, Reader, Wire, WireError,
};

verus! {

broadcast use {vstd::string::group_string_axioms, vstd::array::group_array_axioms};

// ── embedded objects ────────────────────────────────────────────────────────

/// An object with its length in front.
#[derive(Debug)]
pub struct Embedded {
    /// The object.
    pub object: StoredObject,
}

/// The encoding of an embedded object.
#[verifier::opaque]
pub open spec fn embedded_bytes(o: ObjectView) -> Seq<u8> {
    blob_bytes(object_bytes(o))
}

/// Whether the lengths in an embedded object, and its own, fit.
#[verifier::opaque]
pub open spec fn embedded_fits(o: ObjectView) -> bool {
    object_fits(o) && object_bytes(o).len() <= u32::MAX
}

/// Reading an embedded object.
#[verifier::opaque]
pub open spec fn embedded_parse(s: Seq<u8>) -> Result<(ObjectView, int), WireError> {
    match parse_blob(s) {
        Err(e) => Err(e),
        Ok((raw, n)) => match object_parse(raw) {
            Err(f) => Err(WireError::BadObject(f)),
            Ok(o) => Ok((o, n)),
        },
    }
}

impl Wire for Embedded {
    type W = ObjectView;

    open spec fn content(&self) -> ObjectView {
        self.object.content()
    }

    open spec fn fits(w: ObjectView) -> bool {
        embedded_fits(w)
    }

    open spec fn bytes(w: ObjectView) -> Seq<u8> {
        embedded_bytes(w)
    }

    open spec fn parse(s: Seq<u8>) -> Result<(ObjectView, int), WireError> {
        embedded_parse(s)
    }

    proof fn reads_back(w: ObjectView, tail: Seq<u8>) {
        reveal(embedded_bytes);
        reveal(embedded_fits);
        reveal(embedded_parse);
        blob_reads_back(object_bytes(w), tail);
        object_reads_back(w);
    }

    proof fn reads_only_encodings(s: Seq<u8>) {
        reveal(embedded_bytes);
        reveal(embedded_fits);
        reveal(embedded_parse);
        blob_reads_only_encodings(s);
        if let Ok((raw, n)) = parse_blob(s) {
            object_reads_only_encodings(raw);
        }
    }

    proof fn cut_short(s: Seq<u8>, k: int) {
        reveal(embedded_parse);
        blob_cut_short(s, k);
    }

    fn put(&self, out: &mut Vec<u8>) {
        proof {
            reveal(embedded_bytes);
        }
        let bytes = self.object.encode();
        put_blob(bytes.as_slice(), out);
    }

    fn get(r: &mut Reader<'_>) -> (res: Result<Embedded, WireError>) {
        proof {
            reveal(embedded_parse);
        }
        let raw = get_blob(r)?;
        match StoredObject::decode(raw) {
            Err(f) => Err(WireError::BadObject(f)),
            Ok(object) => Ok(Embedded { object }),
        }
    }
}

/// A function stored as a plain object that refers to others by their hashes
/// alone, with its length in front.
#[derive(Debug)]
pub struct PlainBody {
    /// The function.
    pub function: ObjectFunction,
}

/// What is wrong with a function that should refer to others by their hashes
/// alone; `None` where nothing is.
pub open spec fn external_fault(f: ObjectFunctionView) -> Option<ObjectFault> {
    match loaded_constants(f.constants, seq![]) {
        Err(e) => Some(e),
        Ok(_) => match loaded_refs(f.dependencies, seq![]) {
            Err(e) => Some(e),
            Ok(_) => None,
        },
    }
}

/// The encoding of a plain function.
#[verifier::opaque]
pub open spec fn plain_bytes(f: ObjectFunctionView) -> Seq<u8> {
    embedded_bytes(ObjectView::Plain(f))
}

/// Whether a plain function can be written.
#[verifier::opaque]
pub open spec fn plain_fits(f: ObjectFunctionView) -> bool {
    embedded_fits(ObjectView::Plain(f)) && external_fault(f) is None
}

/// Reading a plain function.
#[verifier::opaque]
pub open spec fn plain_parse(s: Seq<u8>) -> Result<(ObjectFunctionView, int), WireError> {
    match embedded_parse(s) {
        Err(e) => Err(e),
        Ok((o, n)) => match o {
            ObjectView::Plain(f) => match external_fault(f) {
                Some(fault) => Err(WireError::BadObject(fault)),
                None => Ok((f, n)),
            },
            _ => Err(WireError::BadObject(ObjectFault::NotPlain)),
        },
    }
}

impl Wire for PlainBody {
    type W = ObjectFunctionView;

    open spec fn content(&self) -> ObjectFunctionView {
        self.function.content()
    }

    open spec fn fits(w: ObjectFunctionView) -> bool {
        plain_fits(w)
    }

    open spec fn bytes(w: ObjectFunctionView) -> Seq<u8> {
        plain_bytes(w)
    }

    open spec fn parse(s: Seq<u8>) -> Result<(ObjectFunctionView, int), WireError> {
        plain_parse(s)
    }

    proof fn reads_back(w: ObjectFunctionView, tail: Seq<u8>) {
        reveal(plain_bytes);
        reveal(plain_fits);
        reveal(plain_parse);
        <Embedded as Wire>::reads_back(ObjectView::Plain(w), tail);
    }

    proof fn reads_only_encodings(s: Seq<u8>) {
        reveal(plain_bytes);
        reveal(plain_fits);
        reveal(plain_parse);
        <Embedded as Wire>::reads_only_encodings(s);
    }

    proof fn cut_short(s: Seq<u8>, k: int) {
        reveal(plain_parse);
        <Embedded as Wire>::cut_short(s, k);
    }

    fn put(&self, out: &mut Vec<u8>) {
        proof {
            reveal(plain_bytes);
        }
        let object = StoredObject::Plain(self.function.copy());
        let e = Embedded { object };
        e.put(out);
    }

    fn get(r: &mut Reader<'_>) -> (res: Result<PlainBody, WireError>) {
        proof {
            reveal(plain_parse);
        }
        let e = Embedded::get(r)?;
        match e.object {
            StoredObject::Plain(function) => {
                let none: Vec<Digest> = Vec::new();
                assert(digest_views(none@) =~= seq![]);
                match load_function(&function, Digest { bytes: [0u8; 32] }, &none) {
                    Err(f) => Err(WireError::BadObject(f)),
                    Ok(_) => Ok(PlainBody { function }),
                }
            },
            _ => Err(WireError::BadObject(ObjectFault::NotPlain)),
        }
    }
}

// ── the form ────────────────────────────────────────────────────────────────

/// A named function of the pre-link form.
#[derive(Debug)]
pub struct PrelinkFn {
    /// The name it is linked by.
    pub name: String,
    /// Whether it is the entry point.
    pub is_main: bool,
    /// The function, under its temporary hash.
    pub func: CompiledFunction,
}

/// A lambda of the pre-link form.
#[derive(Debug)]
pub struct PrelinkLambda {
    /// The temporary hash.
    pub temp_hash: Digest,
    /// The name of the function it stands in.
    pub parent: String,
    /// The function.
    pub func: CompiledFunction,
}

/// The pre-link form of a module.
#[derive(Debug)]
pub struct PrelinkModule {
    /// The named functions.
    pub functions: Vec<PrelinkFn>,
    /// The lambdas.
    pub lambdas: Vec<PrelinkLambda>,
    /// The names that order default implementations in a recursive group.
    pub ability_group_names: Vec<(String, String)>,
    /// The objects of the constants.
    pub const_objects: Vec<StoredObject>,
    /// The objects of the native functions.
    pub native_objects: Vec<StoredObject>,
    /// The names of the constants.
    pub const_names: Vec<(String, Digest)>,
    /// The names of the native functions.
    pub native_names: Vec<(String, Digest)>,
    /// The state migrations.
    pub migrations: Vec<MigrationRecord>,
    /// The default implementations to check for ambiguity.
    pub ability_checks: Vec<AbilityMethodCheck>,
    /// The canonical signatures of the names.
    pub signatures: Vec<(String, String)>,
}

/// What a [`PrelinkModule`] says, apart from the debug information of its
/// functions.
pub struct PrelinkView {
    /// The named functions, each with its name and whether it is the entry
    /// point.
    pub functions: Seq<(Seq<char>, bool, FunctionView)>,
    /// The lambdas, each with the name of the function it stands in. A lambda's
    /// hash is its temporary hash.
    pub lambdas: Seq<(Seq<char>, FunctionView)>,
    /// The names that order default implementations in a recursive group.
    pub ability_group_names: Seq<(Seq<char>, Seq<char>)>,
    /// The objects of the constants.
    pub const_objects: Seq<ObjectView>,
    /// The objects of the native functions.
    pub native_objects: Seq<ObjectView>,
    /// The names of the constants.
    pub const_names: Seq<(Seq<char>, Seq<u8>)>,
    /// The names of the native functions.
    pub native_names: Seq<(Seq<char>, Seq<u8>)>,
    /// The state migrations.
    pub migrations: Seq<(Seq<char>, Seq<char>, Seq<char>)>,
    /// The default implementations to check for ambiguity.
    pub ability_checks: Seq<CheckView>,
    /// The canonical signatures of the names.
    pub signatures: Seq<(Seq<char>, Seq<char>)>,
}

/// A function under a hash, without its debug information.
pub open spec fn bare(f: FunctionView, hash: Seq<u8>) -> FunctionView {
    FunctionView { hash, debug: None, ..f }
}

/// What migrations say, as triples.
pub open spec fn migration_parts(s: Seq<MigrationRecord>) -> Seq<(Seq<char>, Seq<char>, Seq<char>)> {
    Seq::new(s.len(), |i: int| (s[i].cell@, s[i].old@, s[i].new@))
}

impl View for PrelinkModule {
    type V = PrelinkView;

    open spec fn view(&self) -> PrelinkView {
        PrelinkView {
            functions: Seq::new(
                self.functions@.len(),
                |i: int|
                    (
                        self.functions@[i].name@,
                        self.functions@[i].is_main,
                        bare(self.functions@[i].func@, self.functions@[i].func@.hash),
                    ),
            ),
            lambdas: Seq::new(
                self.lambdas@.len(),
                |i: int|
                    (
                        self.lambdas@[i].parent@,
                        bare(self.lambdas@[i].func@, self.lambdas@[i].temp_hash@),
                    ),
            ),
            ability_group_names: self.ability_group_names.content(),
            const_objects: contents(self.const_objects@),
            native_objects: contents(self.native_objects@),
            const_names: self.const_names.content(),
            native_names: self.native_names.content(),
            migrations: migration_parts(self.migrations@),
            ability_checks: check_views(self.ability_checks@),
            signatures: self.signatures.content(),
        }
    }
}

/// Why bytes are no pre-link form.
#[derive(Debug, Clone, Copy, PartialEq, Eq, Structural)]
pub enum PrelinkError {
    /// The input ended before the encoding was complete.
    Truncated,
    /// The input did not start with the magic.
    BadMagic,
    /// Another format version.
    BadVersion(u8),
    /// Text was not valid UTF-8.
    InvalidUtf8,
    /// An unexpected tag byte.
    BadTag(u8),
    /// An embedded object did not decode, or was of the wrong sort.
    BadObject(ObjectFault),
    /// Bytes remained after a complete form.
    TrailingBytes,
}

impl PrelinkError {
    /// The text of the error.
    pub open spec fn text(self) -> Seq<char> {
        match self {
            PrelinkError::Truncated => "prelink blob is truncated"@,
            PrelinkError::BadMagic => "not a prelink blob (bad magic)"@,
            PrelinkError::BadVersion(v) => "unsupported prelink version "@ + decimal_text(v as nat),
            PrelinkError::InvalidUtf8 => "invalid UTF-8 in prelink blob"@,
            PrelinkError::BadTag(t) => "unexpected tag "@ + decimal_text(t as nat)
                + " in prelink blob"@,
            PrelinkError::BadObject(f) => "bad embedded object in prelink blob: "@ + f.text(),
            PrelinkError::TrailingBytes => "trailing bytes after prelink blob"@,
        }
    }

    /// The text of the error.
    pub fn message(&self) -> (r: String)
        ensures
            r@ == self.text(),
    {
        match self {
            PrelinkError::Truncated => owned("prelink blob is truncated"),
            PrelinkError::BadMagic => owned("not a prelink blob (bad magic)"),
            PrelinkError::BadVersion(v) => {
                let mut out = owned("unsupported prelink version ");
                push_decimal(&mut out, *v as u64);
                out
            },
            PrelinkError::InvalidUtf8 => owned("invalid UTF-8 in prelink blob"),
            PrelinkError::BadTag(t) => {
                let mut out = owned("unexpected tag ");
                push_decimal(&mut out, *t as u64);
                push_text(&mut out, " in prelink blob");
                out
            },
            PrelinkError::BadObject(f) => {
                let mut out = owned("bad embedded object in prelink blob: ");
                let text = f.message();
                push_text(&mut out, text.as_str());
                out
            },
            PrelinkError::TrailingBytes => owned("trailing bytes after prelink blob"),
        }
    }
}

// ── the encoding ────────────────────────────────────────────────────────────

/// The format version.
pub const PRELINK_VERSION: u8 = 1;

/// The first bytes of the encoding.
pub open spec fn prelink_magic() -> Seq<u8> {
    seq![0x41u8, 0x42u8, 0x50u8, 0x4cu8]
}

/// A check as it is written.
pub type CheckParts = (String, ([u8; 16], (Option<[u8; 32]>, (String, (String, (u32, u32))))));

/// The content of a check as it is written.
pub type CheckContents = (
    Seq<char>,
    (Seq<u8>, (Option<Seq<u8>>, (Seq<char>, (Seq<char>, (u32, u32))))),
);

/// A named function as it is written.
pub type FnParts = (String, (bool, (Digest, PlainBody)));

/// The content of a named function as it is written.
pub type FnContents = (Seq<char>, (bool, (Seq<u8>, ObjectFunctionView)));

/// A lambda as it is written.
pub type LambdaParts = (Digest, (String, PlainBody));

/// The content of a lambda as it is written.
pub type LambdaContents = (Seq<u8>, (Seq<char>, ObjectFunctionView));

/// The parts of the form as they are written.
pub type PrelinkParts = (Vec<FnParts>, (Vec<LambdaParts>, (Vec<(String, String)>, (Vec<Embedded>, (Vec<Embedded>, (Vec<(String, Digest)>, (Vec<(String, Digest)>, (Vec<(String, String, String)>, (Vec<CheckParts>, Vec<(String, String)>)))))))));

/// The contents of the parts of the form.
pub type PrelinkContents = (Seq<FnContents>, (Seq<LambdaContents>, (Seq<(Seq<char>, Seq<char>)>, (Seq<ObjectView>, (Seq<ObjectView>, (Seq<(Seq<char>, Seq<u8>)>, (Seq<(Seq<char>, Seq<u8>)>, (Seq<(Seq<char>, Seq<char>, Seq<char>)>, (Seq<CheckContents>, Seq<(Seq<char>, Seq<char>)>)))))))));

/// How a function is written: every reference by its hash.
pub open spec fn symbolic(f: FunctionView) -> ObjectFunctionView {
    stored_function(f, Map::empty())
}

/// The function that a written function stands for under a hash.
pub open spec fn unsymbolic(f: ObjectFunctionView, hash: Seq<u8>) -> FunctionView {
    loaded_function(f, hash, seq![])->Ok_0
}

/// The content of a check as it is written.
pub open spec fn check_parts(c: CheckView) -> CheckContents {
    (c.symbol, (c.uuid, (c.signature, (c.ability_name, (c.method_name, c.span)))))
}

/// The check that was written.
pub open spec fn check_of(p: CheckContents) -> CheckView {
    CheckView {
        symbol: p.0,
        uuid: p.1.0,
        signature: p.1.1.0,
        ability_name: p.1.1.1.0,
        method_name: p.1.1.1.1.0,
        span: p.1.1.1.1.1,
    }
}

/// The content of the form as it is written.
pub open spec fn prelink_parts(v: PrelinkView) -> PrelinkContents {
    (
        Seq::new(
            v.functions.len(),
            |i: int|
                (
                    v.functions[i].0,
                    (v.functions[i].1, (v.functions[i].2.hash, symbolic(v.functions[i].2))),
                ),
        ),
        (
            Seq::new(
                v.lambdas.len(),
                |i: int| (v.lambdas[i].1.hash, (v.lambdas[i].0, symbolic(v.lambdas[i].1))),
            ),
            (
                v.ability_group_names,
                (
                    v.const_objects,
                    (
                        v.native_objects,
                        (
                            v.const_names,
                            (
                                v.native_names,
                                (
                                    v.migrations,
                                    (
                                        Seq::new(
                                            v.ability_checks.len(),
                                            |i: int| check_parts(v.ability_checks[i]),
                                        ),
                                        v.signatures,
                                    ),
                                ),
                            ),
                        ),
                    ),
                ),
            ),
        ),
    )
}

/// The form that was written.
pub open spec fn prelink_of(p: PrelinkContents) -> PrelinkView {
    PrelinkView {
        functions: Seq::new(
            p.0.len(),
            |i: int| (p.0[i].0, p.0[i].1.0, unsymbolic(p.0[i].1.1.1, p.0[i].1.1.0)),
        ),
        lambdas: Seq::new(
            p.1.0.len(),
            |i: int| (p.1.0[i].1.0, unsymbolic(p.1.0[i].1.1, p.1.0[i].0)),
        ),
        ability_group_names: p.1.1.0,
        const_objects: p.1.1.1.0,
        native_objects: p.1.1.1.1.0,
        const_names: p.1.1.1.1.1.0,
        native_names: p.1.1.1.1.1.1.0,
        migrations: p.1.1.1.1.1.1.1.0,
        ability_checks: Seq::new(
            p.1.1.1.1.1.1.1.1.0.len(),
            |i: int| check_of(p.1.1.1.1.1.1.1.1.0[i]),
        ),
        signatures: p.1.1.1.1.1.1.1.1.1,
    }
}

/// The encoding of the parts.
#[verifier::opaque]
pub open spec fn parts_bytes(p: PrelinkContents) -> Seq<u8> {
    PrelinkParts::bytes(p)
}

/// Whether the lengths in the parts fit.
#[verifier::opaque]
pub open spec fn parts_fit(p: PrelinkContents) -> bool {
    PrelinkParts::fits(p)
}

/// Reading the parts.
#[verifier::opaque]
pub open spec fn parts_parse(s: Seq<u8>) -> Result<(PrelinkContents, int), WireError> {
    PrelinkParts::parse(s)
}

/// The encoding of a pre-link form.
pub open spec fn prelink_bytes(v: PrelinkView) -> Seq<u8> {
    prelink_magic() + seq![PRELINK_VERSION] + parts_bytes(prelink_parts(v))
}

/// How a fault of the shared encoding is reported.
pub open spec fn prelink_fault(e: WireError) -> PrelinkError {
    match e {
        WireError::Truncated => PrelinkError::Truncated,
        WireError::InvalidUtf8 => PrelinkError::InvalidUtf8,
        WireError::BadTag(t) => PrelinkError::BadTag(t),
        WireError::BadObject(f) => PrelinkError::BadObject(f),
    }
}

/// The form that a byte string encodes, or why it encodes none.
pub open spec fn prelink_parse(s: Seq<u8>) -> Result<PrelinkView, PrelinkError> {
    if s.len() < 4 {
        Err(PrelinkError::Truncated)
    } else if s.take(4) != prelink_magic() {
        Err(PrelinkError::BadMagic)
    } else if s.len() < 5 {
        Err(PrelinkError::Truncated)
    } else if s[4] != PRELINK_VERSION {
        Err(PrelinkError::BadVersion(s[4]))
    } else {
        match parts_parse(s.skip(5)) {
            Err(e) => Err(prelink_fault(e)),
            Ok((p, n)) => if 5 + n != s.len() {
                Err(PrelinkError::TrailingBytes)
            } else {
                Ok(prelink_of(p))
            },
        }
    }
}

/// Whether a form can be written: every constant of its functions can be
/// stored.
pub open spec fn all_storable(v: PrelinkView) -> bool {
    &&& forall|i: int| 0 <= i < v.functions.len() ==> storable((#[trigger] v.functions[i]).2)
    &&& forall|i: int| 0 <= i < v.lambdas.len() ==> storable((#[trigger] v.lambdas[i]).1)
}

/// Whether the functions of a form carry no debug information.
pub open spec fn all_bare(v: PrelinkView) -> bool {
    &&& forall|i: int| 0 <= i < v.functions.len() ==> (#[trigger] v.functions[i]).2.debug is None
    &&& forall|i: int| 0 <= i < v.lambdas.len() ==> (#[trigger] v.lambdas[i]).1.debug is None
}

/// A form without the debug information of its functions, which is not written.
pub open spec fn without_debug(v: PrelinkView) -> PrelinkView {
    PrelinkView {
        functions: Seq::new(
            v.functions.len(),
            |i: int|
                (v.functions[i].0, v.functions[i].1, FunctionView { debug: None, ..v.functions[i].2 }),
        ),
        lambdas: Seq::new(
            v.lambdas.len(),
            |i: int| (v.lambdas[i].0, FunctionView { debug: None, ..v.lambdas[i].1 }),
        ),
        ..v
    }
}

/// Debug information makes no difference to what is written.
proof fn lemma_parts_without_debug(v: PrelinkView)
    ensures
        prelink_parts(without_debug(v)) == prelink_parts(v),
        all_storable(v) ==> all_storable(without_debug(v)),
        all_bare(without_debug(v)),
        all_bare(v) ==> without_debug(v) == v,
{
    let w = without_debug(v);
    let p = prelink_parts(v);
    let q = prelink_parts(w);
    assert forall|i: int| 0 <= i < v.functions.len() implies q.0[i] == p.0[i] by {
        assert(w.functions[i].2.constants == v.functions[i].2.constants);
    }
    assert(q.0 =~= p.0);
    assert forall|i: int| 0 <= i < v.lambdas.len() implies q.1.0[i] == p.1.0[i] by {
        assert(w.lambdas[i].1.constants == v.lambdas[i].1.constants);
    }
    assert(q.1.0 =~= p.1.0);
    if all_storable(v) {
        assert forall|i: int| 0 <= i < w.functions.len() implies storable(
            (#[trigger] w.functions[i]).2,
        ) by {
            assert(storable(v.functions[i].2));
        }
        assert forall|i: int| 0 <= i < w.lambdas.len() implies storable(
            (#[trigger] w.lambdas[i]).1,
        ) by {
            assert(storable(v.lambdas[i].1));
        }
    }
    if all_bare(v) {
        assert(w.functions =~= v.functions);
        assert(w.lambdas =~= v.lambdas);
    }
}

/// A form that can be written reads back as it was, without debug information,
/// and what was read is written as the same bytes again.
pub proof fn prelink_reads_back(v: PrelinkView)
    requires
        all_storable(v),
        parts_fit(prelink_parts(v)),
    ensures
        prelink_parse(prelink_bytes(v)) == Ok::<PrelinkView, PrelinkError>(without_debug(v)),
        prelink_bytes(without_debug(v)) == prelink_bytes(v),
        all_storable(without_debug(v)),
        all_bare(v) ==> without_debug(v) == v,
{
    let p = prelink_parts(v);
    let s = prelink_bytes(v);
    lemma_parts_read_back(p, seq![]);
    assert(parts_bytes(p) + seq![] =~= parts_bytes(p));
    assert(s.take(4) =~= prelink_magic());
    assert(s.skip(5) =~= parts_bytes(p));
    lemma_parts_without_debug(v);
    lemma_parts_stand_for(without_debug(v));
}

/// A written form that was cut short is refused as such, and so is one with more
/// bytes behind it.
pub proof fn prelink_has_no_other_length(v: PrelinkView, k: int, tail: Seq<u8>)
    requires
        parts_fit(prelink_parts(v)),
        0 <= k < prelink_bytes(v).len(),
        tail.len() > 0,
    ensures
        prelink_parse(prelink_bytes(v).take(k)) == Err::<PrelinkView, PrelinkError>(
            PrelinkError::Truncated,
        ),
        prelink_parse(prelink_bytes(v) + tail) == Err::<PrelinkView, PrelinkError>(
            PrelinkError::TrailingBytes,
        ),
{
    let p = prelink_parts(v);
    let s = prelink_bytes(v);
    let body = parts_bytes(p);
    let cut = s.take(k);
    if k >= 5 {
        assert(cut.take(4) =~= prelink_magic());
        assert(cut.skip(5) =~= body.take(k - 5));
        lemma_parts_read_back(p, seq![]);
        assert(body + seq![] =~= body);
        reveal(parts_parse);
        PrelinkParts::cut_short(body, k - 5);
        PrelinkParts::reads_only_encodings(body.take(k - 5));
    } else if k == 4 {
        assert(cut.take(4) =~= prelink_magic());
    }
    let long = s + tail;
    lemma_parts_read_back(p, tail);
    assert(long.take(4) =~= prelink_magic());
    assert(long.skip(5) =~= body + tail);
}

proof fn lemma_parts_read_back(p: PrelinkContents, tail: Seq<u8>)
    requires
        parts_fit(p),
    ensures
        parts_parse(parts_bytes(p) + tail) == Ok::<(PrelinkContents, int), WireError>(
            (p, parts_bytes(p).len() as int),
        ),
{
    reveal(parts_bytes);
    reveal(parts_fit);
    reveal(parts_parse);
    PrelinkParts::reads_back(p, tail);
}

proof fn lemma_parts_read_only_encodings(s: Seq<u8>)
    ensures
        parts_parse(s) matches Ok((p, n)) ==> 0 <= n <= s.len() && parts_fit(p) && parts_bytes(p)
            == s.take(n),
{
    reveal(parts_bytes);
    reveal(parts_fit);
    reveal(parts_parse);
    PrelinkParts::reads_only_encodings(s);
}

proof fn lemma_parts_stand_for(v: PrelinkView)
    requires
        all_storable(v),
        all_bare(v),
    ensures
        prelink_of(prelink_parts(v)) == v,
{
    let p = prelink_parts(v);
    let r = prelink_of(p);
    assert forall|i: int| 0 <= i < v.functions.len() implies r.functions[i] == v.functions[i] by {
        plain_function_loads_back(v.functions[i].2);
    }
    assert(r.functions =~= v.functions);
    assert forall|i: int| 0 <= i < v.lambdas.len() implies r.lambdas[i] == v.lambdas[i] by {
        plain_function_loads_back(v.lambdas[i].1);
    }
    assert(r.lambdas =~= v.lambdas);
    assert(r.ability_checks =~= v.ability_checks);
}

proof fn lemma_constant_stores_back(c: ObjectConstantView)
    requires
        loaded_constant(c, seq![]) is Ok,
    ensures
        stored_constant(loaded_constant(c, seq![])->Ok_0, Map::empty()) == Some(c),
        loaded_constant(c, seq![])->Ok_0 != ConstantView::Runtime,
{
}

proof fn lemma_constants_store_back(cs: Seq<ObjectConstantView>)
    requires
        loaded_constants(cs, seq![]) is Ok,
    ensures
        loaded_constants(cs, seq![])->Ok_0.len() == cs.len(),
        forall|i: int|
            0 <= i < cs.len() ==> stored_constant(
                #[trigger] loaded_constants(cs, seq![])->Ok_0[i],
                Map::empty(),
            ) == Some(cs[i]) && loaded_constants(cs, seq![])->Ok_0[i] != ConstantView::Runtime,
    decreases cs.len(),
{
    if cs.len() > 0 {
        lemma_constants_store_back(cs.drop_last());
        lemma_constant_stores_back(cs.last());
        let done = loaded_constants(cs.drop_last(), seq![])->Ok_0;
        let all = loaded_constants(cs, seq![])->Ok_0;
        assert forall|i: int| 0 <= i < cs.len() implies stored_constant(
            #[trigger] all[i],
            Map::empty(),
        ) == Some(cs[i]) && all[i] != ConstantView::Runtime by {
            if i < done.len() {
                assert(all[i] == done[i]);
                assert(cs.drop_last()[i] == cs[i]);
            }
        }
    }
}

proof fn lemma_refs_store_back(rs: Seq<RefView>)
    requires
        loaded_refs(rs, seq![]) is Ok,
    ensures
        loaded_refs(rs, seq![])->Ok_0.len() == rs.len(),
        forall|i: int|
            0 <= i < rs.len() ==> resolved(
                Map::empty(),
                #[trigger] loaded_refs(rs, seq![])->Ok_0[i],
            ) == rs[i],
    decreases rs.len(),
{
    if rs.len() > 0 {
        lemma_refs_store_back(rs.drop_last());
        let done = loaded_refs(rs.drop_last(), seq![])->Ok_0;
        let all = loaded_refs(rs, seq![])->Ok_0;
        assert forall|i: int| 0 <= i < rs.len() implies resolved(Map::empty(), #[trigger] all[i])
            == rs[i] by {
            if i < done.len() {
                assert(all[i] == done[i]);
                assert(rs.drop_last()[i] == rs[i]);
            }
        }
    }
}

/// A function that refers to others by their hashes alone is stored as it was
/// once it is loaded.
pub proof fn loaded_function_stores_back(f: ObjectFunctionView, hash: Seq<u8>)
    requires
        external_fault(f) is None,
    ensures
        symbolic(unsymbolic(f, hash)) == f,
        storable(unsymbolic(f, hash)),
        unsymbolic(f, hash).hash == hash,
        unsymbolic(f, hash).debug is None,
{
    lemma_constants_store_back(f.constants);
    lemma_refs_store_back(f.dependencies);
    let g = symbolic(unsymbolic(f, hash));
    assert(g.constants =~= f.constants);
    assert(g.dependencies =~= f.dependencies);
}

/// What reads back as a form is that form's encoding, to the byte.
pub proof fn prelink_reads_only_encodings(s: Seq<u8>)
    ensures
        prelink_parse(s) matches Ok(v) ==> prelink_bytes(v) == s && all_storable(v) && all_bare(v)
            && parts_fit(prelink_parts(v)),
{
    if prelink_parse(s) is Ok {
        lemma_parts_read_only_encodings(s.skip(5));
        let (p, n) = parts_parse(s.skip(5))->Ok_0;
        assert(s.skip(5).take(n) =~= s.skip(5));
        lemma_fit_functions(p);
        let v = prelink_of(p);
        let q = prelink_parts(v);
        assert forall|i: int| 0 <= i < p.0.len() implies q.0[i] == p.0[i] && storable(
            (#[trigger] v.functions[i]).2,
        ) && v.functions[i].2.debug is None by {
            assert(external_fault(p.0[i].1.1.1) is None);
            loaded_function_stores_back(p.0[i].1.1.1, p.0[i].1.1.0);
        }
        assert(q.0 =~= p.0);
        assert forall|i: int| 0 <= i < p.1.0.len() implies q.1.0[i] == p.1.0[i] && storable(
            (#[trigger] v.lambdas[i]).1,
        ) && v.lambdas[i].1.debug is None by {
            assert(external_fault(p.1.0[i].1.1) is None);
            loaded_function_stores_back(p.1.0[i].1.1, p.1.0[i].0);
        }
        assert(q.1.0 =~= p.1.0);
        assert(q.1.1.1.1.1.1.1.1.0 =~= p.1.1.1.1.1.1.1.1.0);
        assert(q == p);
        assert(prelink_bytes(v) =~= s);
    }
}

/// The functions of parts that fit refer to others by their hashes alone.
proof fn lemma_fit_functions(p: PrelinkContents)
    requires
        parts_fit(p),
    ensures
        forall|i: int| 0 <= i < p.0.len() ==> external_fault((#[trigger] p.0[i]).1.1.1) is None,
        forall|i: int| 0 <= i < p.1.0.len() ==> external_fault((#[trigger] p.1.0[i]).1.1) is None,
{
    reveal(parts_fit);
    reveal(plain_fits);
    assert forall|i: int| 0 <= i < p.0.len() implies external_fault(
        (#[trigger] p.0[i]).1.1.1,
    ) is None by {
        assert(FnParts::fits(p.0[i]));
    }
    assert forall|i: int| 0 <= i < p.1.0.len() implies external_fault(
        (#[trigger] p.1.0[i]).1.1,
    ) is None by {
        assert(LambdaParts::fits(p.1.0[i]));
    }
}

// ── writing and reading ─────────────────────────────────────────────────────

/// How a function is written.
fn write_function(func: &CompiledFunction) -> (r: Result<PlainBody, ObjectFault>)
    ensures
        r is Ok <==> storable(func@),
        r matches Ok(b) ==> b.content() == symbolic(func@),
        r matches Err(e) ==> e == ObjectFault::UnsupportedConstant,
{
    let none: OrdMap<Digest, ObjectRef> = OrdMap::new();
    assert(subst_view(none@) =~= Map::empty());
    let function = function_from_compiled(func, &none)?;
    Ok(PlainBody { function })
}

/// The function that was written.
fn read_function(body: &PlainBody, hash: Digest) -> (r: CompiledFunction)
    requires
        external_fault(body.content()) is None,
    ensures
        r@ == unsymbolic(body.content(), hash@),
{
    let none: Vec<Digest> = Vec::new();
    assert(digest_views(none@) =~= seq![]);
    let ghost f = body.content();
    assert(loaded_function(f, hash@, seq![]) is Ok);
    let r = load_function(&body.function, hash, &none);
    r.unwrap()
}

/// A copy of a list of pairs of text.
pub(crate) fn copy_pairs(s: &Vec<(String, String)>) -> (r: Vec<(String, String)>)
    ensures
        r.content() == s.content(),
{
    let mut out: Vec<(String, String)> = Vec::new();
    let mut i: usize = 0;
    while i < s.len()
        invariant
            i <= s@.len(),
            out@.len() == i,
            forall|k: int| 0 <= k < i ==> (#[trigger] out@[k]).content() == s@[k].content(),
        decreases s@.len() - i,
    {
        out.push((owned(s[i].0.as_str()), owned(s[i].1.as_str())));
        i = i + 1;
    }
    assert(out.content() =~= s.content());
    out
}

fn copy_bound(s: &Vec<(String, Digest)>) -> (r: Vec<(String, Digest)>)
    ensures
        r.content() == s.content(),
{
    let mut out: Vec<(String, Digest)> = Vec::new();
    let mut i: usize = 0;
    while i < s.len()
        invariant
            i <= s@.len(),
            out@.len() == i,
            forall|k: int| 0 <= k < i ==> (#[trigger] out@[k]).content() == s@[k].content(),
        decreases s@.len() - i,
    {
        out.push((owned(s[i].0.as_str()), s[i].1));
        i = i + 1;
    }
    assert(out.content() =~= s.content());
    out
}

fn copy_objects(s: &Vec<StoredObject>) -> (r: Vec<StoredObject>)
    ensures
        contents(r@) == contents(s@),
{
    let mut out: Vec<StoredObject> = Vec::new();
    let mut i: usize = 0;
    while i < s.len()
        invariant
            i <= s@.len(),
            out@.len() == i,
            forall|k: int| 0 <= k < i ==> (#[trigger] out@[k]).content() == s@[k].content(),
        decreases s@.len() - i,
    {
        out.push(s[i].copy());
        i = i + 1;
    }
    assert(contents(out@) =~= contents(s@));
    out
}

fn embed(s: &Vec<StoredObject>) -> (r: Vec<Embedded>)
    ensures
        r.content() == contents(s@),
{
    let mut out: Vec<Embedded> = Vec::new();
    let mut i: usize = 0;
    while i < s.len()
        invariant
            i <= s@.len(),
            out@.len() == i,
            forall|k: int| 0 <= k < i ==> (#[trigger] out@[k]).content() == s@[k].content(),
        decreases s@.len() - i,
    {
        out.push(Embedded { object: s[i].copy() });
        i = i + 1;
    }
    assert(out.content() =~= contents(s@));
    out
}

fn unembed(s: &Vec<Embedded>) -> (r: Vec<StoredObject>)
    ensures
        contents(r@) == s.content(),
{
    let mut out: Vec<StoredObject> = Vec::new();
    let mut i: usize = 0;
    while i < s.len()
        invariant
            i <= s@.len(),
            out@.len() == i,
            forall|k: int| 0 <= k < i ==> (#[trigger] out@[k]).content() == s@[k].content(),
        decreases s@.len() - i,
    {
        out.push(s[i].object.copy());
        i = i + 1;
    }
    assert(contents(out@) =~= s.content());
    out
}

fn migration_triples(s: &Vec<MigrationRecord>) -> (r: Vec<(String, String, String)>)
    ensures
        r.content() == migration_parts(s@),
{
    let mut out: Vec<(String, String, String)> = Vec::new();
    let mut i: usize = 0;
    while i < s.len()
        invariant
            i <= s@.len(),
            out@.len() == i,
            forall|k: int|
                0 <= k < i ==> (#[trigger] out@[k]).content() == (
                    s@[k].cell@,
                    s@[k].old@,
                    s@[k].new@,
                ),
        decreases s@.len() - i,
    {
        out.push((owned(s[i].cell.as_str()), owned(s[i].old.as_str()), owned(s[i].new.as_str())));
        i = i + 1;
    }
    assert(out.content() =~= migration_parts(s@));
    out
}

fn migration_records(s: &Vec<(String, String, String)>) -> (r: Vec<MigrationRecord>)
    ensures
        migration_parts(r@) == s.content(),
{
    let mut out: Vec<MigrationRecord> = Vec::new();
    let mut i: usize = 0;
    while i < s.len()
        invariant
            i <= s@.len(),
            out@.len() == i,
            forall|k: int|
                0 <= k < i ==> ((#[trigger] out@[k]).cell@, out@[k].old@, out@[k].new@)
                    == s@[k].content(),
        decreases s@.len() - i,
    {
        out.push(
            MigrationRecord {
                cell: owned(s[i].0.as_str()),
                old: owned(s[i].1.as_str()),
                new: owned(s[i].2.as_str()),
            },
        );
        i = i + 1;
    }
    assert(migration_parts(out@) =~= s.content());
    out
}

impl AbilityMethodCheck {
    /// A copy of the check.
    pub fn copy(&self) -> (r: AbilityMethodCheck)
        ensures
            r@ == self@,
    {
        AbilityMethodCheck {
            symbol: owned(self.symbol.as_str()),
            uuid: self.uuid,
            signature: self.signature,
            ability_name: owned(self.ability_name.as_str()),
            method_name: owned(self.method_name.as_str()),
            span: self.span,
        }
    }
}

pub(crate) fn copy_checks(s: &Vec<AbilityMethodCheck>) -> (r: Vec<AbilityMethodCheck>)
    ensures
        check_views(r@) == check_views(s@),
{
    let mut out: Vec<AbilityMethodCheck> = Vec::new();
    let mut i: usize = 0;
    while i < s.len()
        invariant
            i <= s@.len(),
            out@.len() == i,
            forall|k: int| 0 <= k < i ==> (#[trigger] out@[k])@ == s@[k]@,
        decreases s@.len() - i,
    {
        out.push(s[i].copy());
        i = i + 1;
    }
    assert(check_views(out@) =~= check_views(s@));
    out
}

fn write_checks(s: &Vec<AbilityMethodCheck>) -> (r: Vec<CheckParts>)
    ensures
        r.content() == Seq::new(s@.len(), |i: int| check_parts(s@[i]@)),
{
    let mut out: Vec<CheckParts> = Vec::new();
    let mut i: usize = 0;
    while i < s.len()
        invariant
            i <= s@.len(),
            out@.len() == i,
            forall|k: int| 0 <= k < i ==> (#[trigger] out@[k]).content() == check_parts(s@[k]@),
        decreases s@.len() - i,
    {
        let c = s[i].copy();
        let p: CheckParts = (
            c.symbol,
            (c.uuid, (c.signature, (c.ability_name, (c.method_name, c.span)))),
        );
        proof {
            assert(p.1.1.0.content() == opt_signature(s@[i as int].signature));
            assert(p.content() == check_parts(s@[i as int]@));
        }
        out.push(p);
        i = i + 1;
    }
    assert(out.content() =~= Seq::new(s@.len(), |i: int| check_parts(s@[i]@)));
    out
}

fn read_checks(s: &Vec<CheckParts>) -> (r: Vec<AbilityMethodCheck>)
    ensures
        check_views(r@) == Seq::new(s@.len(), |i: int| check_of(s@[i].content())),
{
    let mut out: Vec<AbilityMethodCheck> = Vec::new();
    let mut i: usize = 0;
    while i < s.len()
        invariant
            i <= s@.len(),
            out@.len() == i,
            forall|k: int| 0 <= k < i ==> (#[trigger] out@[k])@ == check_of(s@[k].content()),
        decreases s@.len() - i,
    {
        let p = &s[i];
        let c = AbilityMethodCheck {
            symbol: owned(p.0.as_str()),
            uuid: p.1.0,
            signature: p.1.1.0,
            ability_name: owned(p.1.1.1.0.as_str()),
            method_name: owned(p.1.1.1.1.0.as_str()),
            span: p.1.1.1.1.1,
        };
        assert(c@ == check_of(s@[i as int].content()));
        out.push(c);
        i = i + 1;
    }
    assert(check_views(out@) =~= Seq::new(s@.len(), |i: int| check_of(s@[i].content())));
    out
}

fn write_functions(s: &Vec<PrelinkFn>) -> (r: Result<Vec<FnParts>, ObjectFault>)
    ensures
        r is Ok <==> forall|i: int| 0 <= i < s@.len() ==> storable((#[trigger] s@[i]).func@),
        r matches Ok(v) ==> v.content() == Seq::new(
            s@.len(),
            |i: int|
                (
                    s@[i].name@,
                    (
                        s@[i].is_main,
                        (s@[i].func@.hash, symbolic(bare(s@[i].func@, s@[i].func@.hash))),
                    ),
                ),
        ),
        r matches Err(e) ==> e == ObjectFault::UnsupportedConstant,
{
    let mut out: Vec<FnParts> = Vec::new();
    let mut i: usize = 0;
    while i < s.len()
        invariant
            i <= s@.len(),
            out@.len() == i,
            forall|k: int| 0 <= k < i ==> storable((#[trigger] s@[k]).func@),
            forall|k: int|
                0 <= k < i ==> (#[trigger] out@[k]).content() == (
                    s@[k].name@,
                    (
                        s@[k].is_main,
                        (s@[k].func@.hash, symbolic(bare(s@[k].func@, s@[k].func@.hash))),
                    ),
                ),
        decreases s@.len() - i,
    {
        let body = match write_function(&s[i].func) {
            Ok(b) => b,
            Err(e) => {
                assert(!storable(s@[i as int].func@));
                return Err(e);
            },
        };
        assert(symbolic(bare(s@[i as int].func@, s@[i as int].func@.hash)) == symbolic(
            s@[i as int].func@,
        ));
        out.push((owned(s[i].name.as_str()), (s[i].is_main, (s[i].func.hash, body))));
        i = i + 1;
    }
    assert(out.content() =~= Seq::new(
        s@.len(),
        |i: int|
            (
                s@[i].name@,
                (s@[i].is_main, (s@[i].func@.hash, symbolic(bare(s@[i].func@, s@[i].func@.hash)))),
            ),
    ));
    Ok(out)
}

fn write_lambdas(s: &Vec<PrelinkLambda>) -> (r: Result<Vec<LambdaParts>, ObjectFault>)
    ensures
        r is Ok <==> forall|i: int| 0 <= i < s@.len() ==> storable((#[trigger] s@[i]).func@),
        r matches Ok(v) ==> v.content() == Seq::new(
            s@.len(),
            |i: int|
                (
                    s@[i].temp_hash@,
                    (s@[i].parent@, symbolic(bare(s@[i].func@, s@[i].temp_hash@))),
                ),
        ),
        r matches Err(e) ==> e == ObjectFault::UnsupportedConstant,
{
    let mut out: Vec<LambdaParts> = Vec::new();
    let mut i: usize = 0;
    while i < s.len()
        invariant
            i <= s@.len(),
            out@.len() == i,
            forall|k: int| 0 <= k < i ==> storable((#[trigger] s@[k]).func@),
            forall|k: int|
                0 <= k < i ==> (#[trigger] out@[k]).content() == (
                    s@[k].temp_hash@,
                    (s@[k].parent@, symbolic(bare(s@[k].func@, s@[k].temp_hash@))),
                ),
        decreases s@.len() - i,
    {
        let body = match write_function(&s[i].func) {
            Ok(b) => b,
            Err(e) => {
                assert(!storable(s@[i as int].func@));
                return Err(e);
            },
        };
        assert(symbolic(bare(s@[i as int].func@, s@[i as int].temp_hash@)) == symbolic(
            s@[i as int].func@,
        ));
        out.push((s[i].temp_hash, (owned(s[i].parent.as_str()), body)));
        i = i + 1;
    }
    assert(out.content() =~= Seq::new(
        s@.len(),
        |i: int|
            (s@[i].temp_hash@, (s@[i].parent@, symbolic(bare(s@[i].func@, s@[i].temp_hash@)))),
    ));
    Ok(out)
}

fn read_functions(s: &Vec<FnParts>) -> (r: Vec<PrelinkFn>)
    requires
        forall|i: int|
            0 <= i < s@.len() ==> external_fault((#[trigger] s@[i]).content().1.1.1) is None,
    ensures
        r@.len() == s@.len(),
        forall|i: int|
            0 <= i < s@.len() ==> (#[trigger] r@[i]).name@ == s@[i].content().0 && r@[i].is_main
                == s@[i].content().1.0 && r@[i].func@ == unsymbolic(
                s@[i].content().1.1.1,
                s@[i].content().1.1.0,
            ),
{
    let mut out: Vec<PrelinkFn> = Vec::new();
    let mut i: usize = 0;
    while i < s.len()
        invariant
            i <= s@.len(),
            out@.len() == i,
            forall|i: int|
                0 <= i < s@.len() ==> external_fault((#[trigger] s@[i]).content().1.1.1) is None,
            forall|k: int|
                0 <= k < i ==> (#[trigger] out@[k]).name@ == s@[k].content().0 && out@[k].is_main
                    == s@[k].content().1.0 && out@[k].func@ == unsymbolic(
                    s@[k].content().1.1.1,
                    s@[k].content().1.1.0,
                ),
        decreases s@.len() - i,
    {
        let p = &s[i];
        assert(external_fault(s@[i as int].content().1.1.1) is None);
        let func = read_function(&p.1.1.1, p.1.1.0);
        out.push(PrelinkFn { name: owned(p.0.as_str()), is_main: p.1.0, func });
        i = i + 1;
    }
    out
}

fn read_lambdas(s: &Vec<LambdaParts>) -> (r: Vec<PrelinkLambda>)
    requires
        forall|i: int|
            0 <= i < s@.len() ==> external_fault((#[trigger] s@[i]).content().1.1) is None,
    ensures
        r@.len() == s@.len(),
        forall|i: int|
            0 <= i < s@.len() ==> (#[trigger] r@[i]).parent@ == s@[i].content().1.0
                && r@[i].temp_hash@ == s@[i].content().0 && r@[i].func@ == unsymbolic(
                s@[i].content().1.1,
                s@[i].content().0,
            ),
{
    let mut out: Vec<PrelinkLambda> = Vec::new();
    let mut i: usize = 0;
    while i < s.len()
        invariant
            i <= s@.len(),
            out@.len() == i,
            forall|i: int|
                0 <= i < s@.len() ==> external_fault((#[trigger] s@[i]).content().1.1) is None,
            forall|k: int|
                0 <= k < i ==> (#[trigger] out@[k]).parent@ == s@[k].content().1.0
                    && out@[k].temp_hash@ == s@[k].content().0 && out@[k].func@ == unsymbolic(
                    s@[k].content().1.1,
                    s@[k].content().0,
                ),
        decreases s@.len() - i,
    {
        let p = &s[i];
        assert(external_fault(s@[i as int].content().1.1) is None);
        let func = read_function(&p.1.1, p.0);
        out.push(PrelinkLambda { temp_hash: p.0, parent: owned(p.1.0.as_str()), func });
        i = i + 1;
    }
    out
}

/// The form made of what was read.
fn from_parts(parts: PrelinkParts) -> (r: PrelinkModule)
    requires
        parts_fit(parts.content()),
    ensures
        r@ == prelink_of(parts.content()),
{
    let ghost p = parts.content();
    proof {
        lemma_fit_functions(p);
        assert forall|i: int| 0 <= i < parts.0@.len() implies external_fault(
            (#[trigger] parts.0@[i]).content().1.1.1,
        ) is None by {
            assert(p.0[i] == parts.0@[i].content());
        }
        assert forall|i: int| 0 <= i < parts.1.0@.len() implies external_fault(
            (#[trigger] parts.1.0@[i]).content().1.1,
        ) is None by {
            assert(p.1.0[i] == parts.1.0@[i].content());
        }
    }
    let r = PrelinkModule {
        functions: read_functions(&parts.0),
        lambdas: read_lambdas(&parts.1.0),
        ability_group_names: copy_pairs(&parts.1.1.0),
        const_objects: unembed(&parts.1.1.1.0),
        native_objects: unembed(&parts.1.1.1.1.0),
        const_names: copy_bound(&parts.1.1.1.1.1.0),
        native_names: copy_bound(&parts.1.1.1.1.1.1.0),
        migrations: migration_records(&parts.1.1.1.1.1.1.1.0),
        ability_checks: read_checks(&parts.1.1.1.1.1.1.1.1.0),
        signatures: copy_pairs(&parts.1.1.1.1.1.1.1.1.1),
    };
    proof {
        let want = prelink_of(p);
        assert forall|i: int| 0 <= i < p.0.len() implies r@.functions[i] == want.functions[i] by {
            assert(p.0[i] == parts.0@[i].content());
            assert(r.functions@[i].func@ == unsymbolic(p.0[i].1.1.1, p.0[i].1.1.0));
            assert(external_fault(p.0[i].1.1.1) is None);
            loaded_function_stores_back(p.0[i].1.1.1, p.0[i].1.1.0);
        }
        assert(r@.functions =~= want.functions);
        assert forall|i: int| 0 <= i < p.1.0.len() implies r@.lambdas[i] == want.lambdas[i] by {
            assert(p.1.0[i] == parts.1.0@[i].content());
            assert(r.lambdas@[i].func@ == unsymbolic(p.1.0[i].1.1, p.1.0[i].0));
            assert(external_fault(p.1.0[i].1.1) is None);
            loaded_function_stores_back(p.1.0[i].1.1, p.1.0[i].0);
        }
        assert(r@.lambdas =~= want.lambdas);
        assert(r@.ability_checks =~= want.ability_checks);
    }
    r
}

impl PrelinkModule {
    /// The canonical encoding. There is none where a constant cannot be stored.
    pub fn encode(&self) -> (r: Result<Vec<u8>, ObjectFault>)
        ensures
            r is Ok <==> all_storable(self@),
            r matches Ok(bytes) ==> bytes@ == prelink_bytes(self@),
            r matches Err(e) ==> e == ObjectFault::UnsupportedConstant,
    {
        proof {
            assert forall|i: int| 0 <= i < self.functions@.len() implies storable(
                (#[trigger] self.functions@[i]).func@,
            ) == storable(self@.functions[i].2) by {}
            assert forall|i: int| 0 <= i < self.lambdas@.len() implies storable(
                (#[trigger] self.lambdas@[i]).func@,
            ) == storable(self@.lambdas[i].1) by {}
        }
        let functions = match write_functions(&self.functions) {
            Ok(v) => v,
            Err(e) => {
                proof {
                    let i = choose|i: int|
                        0 <= i < self.functions@.len() && !storable(
                            (#[trigger] self.functions@[i]).func@,
                        );
                    assert(!storable(self@.functions[i].2));
                }
                return Err(e);
            },
        };
        let lambdas = match write_lambdas(&self.lambdas) {
            Ok(v) => v,
            Err(e) => {
                proof {
                    let i = choose|i: int|
                        0 <= i < self.lambdas@.len() && !storable(
                            (#[trigger] self.lambdas@[i]).func@,
                        );
                    assert(!storable(self@.lambdas[i].1));
                }
                return Err(e);
            },
        };
        let parts: PrelinkParts = (
            functions,
            (
                lambdas,
                (
                    copy_pairs(&self.ability_group_names),
                    (
                        embed(&self.const_objects),
                        (
                            embed(&self.native_objects),
                            (
                                copy_bound(&self.const_names),
                                (
                                    copy_bound(&self.native_names),
                                    (
                                        migration_triples(&self.migrations),
                                        (
                                            write_checks(&self.ability_checks),
                                            copy_pairs(&self.signatures),
                                        ),
                                    ),
                                ),
                            ),
                        ),
                    ),
                ),
            ),
        );
        let mut out: Vec<u8> = Vec::new();
        out.push(0x41);
        out.push(0x42);
        out.push(0x50);
        out.push(0x4c);
        out.push(PRELINK_VERSION);
        assert(out@ =~= prelink_magic() + seq![PRELINK_VERSION]);
        put_parts(&parts, &mut out);
        proof {
            let want = prelink_parts(self@);
            let p = parts.content();
            assert(p.0 =~= want.0);
            assert(p.1.0 =~= want.1.0);
            assert(p.1.1.1.1.1.1.1.1.0 =~= want.1.1.1.1.1.1.1.1.0);
            assert(p == want);
        }
        Ok(out)
    }

    /// Read the canonical encoding.
    pub fn decode(bytes: &[u8]) -> (r: Result<PrelinkModule, PrelinkError>)
        ensures
            match prelink_parse(bytes@) {
                Ok(v) => r is Ok && r->Ok_0@ == v,
                Err(e) => r matches Err(f) && f == e,
            },
    {
        let mut r = Reader::new(bytes);
        let magic = match r.take(4) {
            Ok(raw) => raw,
            Err(_) => return Err(PrelinkError::Truncated),
        };
        assert(magic@ == bytes@.take(4));
        if magic[0] != 0x41 || magic[1] != 0x42 || magic[2] != 0x50 || magic[3] != 0x4c {
            assert(magic@ != prelink_magic());
            return Err(PrelinkError::BadMagic);
        }
        assert(magic@ =~= prelink_magic());
        let version = match u8::get(&mut r) {
            Ok(v) => v,
            Err(_) => return Err(PrelinkError::Truncated),
        };
        if version != PRELINK_VERSION {
            return Err(PrelinkError::BadVersion(version));
        }
        assert(r.rest() =~= bytes@.skip(5));
        match get_parts(&mut r) {
            Err(WireError::Truncated) => Err(PrelinkError::Truncated),
            Err(WireError::InvalidUtf8) => Err(PrelinkError::InvalidUtf8),
            Err(WireError::BadTag(t)) => Err(PrelinkError::BadTag(t)),
            Err(WireError::BadObject(f)) => Err(PrelinkError::BadObject(f)),
            Ok(parts) => {
                if r.remaining() != 0 {
                    return Err(PrelinkError::TrailingBytes);
                }
                Ok(from_parts(parts))
            },
        }
    }
}

/// Append the encoding of the parts.
fn put_parts(parts: &PrelinkParts, out: &mut Vec<u8>)
    ensures
        final(out)@ == old(out)@ + parts_bytes(parts.content()),
{
    proof {
        reveal(parts_bytes);
    }
    parts.put(out);
}

/// Read the parts.
fn get_parts(r: &mut Reader<'_>) -> (res: Result<PrelinkParts, WireError>)
    requires
        old(r).wf(),
    ensures
        final(r).wf(),
        final(r).bytes@ == old(r).bytes@,
        match parts_parse(old(r).rest()) {
            Ok((w, n)) => res is Ok && res->Ok_0.content() == w && final(r).rest() == old(
                r,
            ).rest().skip(n) && 0 <= n <= old(r).rest().len() && parts_fit(w),
            Err(e) => res matches Err(f) && f == e,
        },
{
    proof {
        lemma_parts_read_only_encodings(r.rest());
        reveal(parts_parse);
    }
    PrelinkParts::get(r)
}

// ── making and using a form ─────────────────────────────────────────────────

impl Ranked for PrelinkFn {
    open spec fn rank(&self) -> Seq<Seq<u8>> {
        seq![encode_utf8(self.name@)]
    }

    fn ranks_before(&self, other: &Self) -> (r: bool) {
        proof {
            single_ranks(encode_utf8(self.name@), encode_utf8(other.name@));
        }
        text_before(self.name.as_str(), other.name.as_str())
    }
}

impl Ranked for PrelinkLambda {
    open spec fn rank(&self) -> Seq<Seq<u8>> {
        seq![self.temp_hash@]
    }

    fn ranks_before(&self, other: &Self) -> (r: bool) {
        proof {
            single_ranks(self.temp_hash@, other.temp_hash@);
        }
        self.temp_hash.before(&other.temp_hash)
    }
}

impl Ranked for AbilityMethodCheck {
    open spec fn rank(&self) -> Seq<Seq<u8>> {
        seq![encode_utf8(self.symbol@)]
    }

    fn ranks_before(&self, other: &Self) -> (r: bool) {
        proof {
            single_ranks(encode_utf8(self.symbol@), encode_utf8(other.symbol@));
        }
        text_before(self.symbol.as_str(), other.symbol.as_str())
    }
}

/// Objects, each under its hash.
pub open spec fn by_hash(objects: Seq<StoredObject>) -> Map<Seq<u8>, ObjectView> {
    kept(Map::empty(), crate::compiler::assemble::hashed(contents(objects)))
}

/// Whether a list holds the values of a map of objects in the order of their
/// hashes.
pub open spec fn lists_by_hash(list: Seq<ObjectView>, m: Map<Seq<u8>, ObjectView>) -> bool {
    exists|entries: Seq<(Digest, StoredObject)>|
        {
            &&& #[trigger] crate::ordmap::keys_increase(entries)
            &&& object_map(crate::ordmap::entries_map(entries)) == m
            &&& list == Seq::new(entries.len(), |i: int| entries[i].1.content())
        }
}

/// One object for each hash, in the order of the hashes.
fn dedup_objects(objects: &Vec<StoredObject>) -> (r: Vec<StoredObject>)
    ensures
        lists_by_hash(contents(r@), by_hash(objects@)),
{
    let ghost es = crate::compiler::assemble::hashed(contents(objects@));
    let mut map: OrdMap<Digest, StoredObject> = OrdMap::new();
    let mut i: usize = 0;
    assert(es.take(0) =~= seq![]);
    assert(object_map(map@) =~= Map::empty());
    while i < objects.len()
        invariant
            i <= objects@.len(),
            es == crate::compiler::assemble::hashed(contents(objects@)),
            object_map(map@) == kept(Map::empty(), es.take(i as int)),
        decreases objects@.len() - i,
    {
        assert(es.take(i + 1).drop_last() =~= es.take(i as int));
        let hash = objects[i].hash();
        map.insert_if_absent(hash, objects[i].copy());
        i = i + 1;
        assert(object_map(map@) =~= kept(Map::empty(), es.take(i as int)));
    }
    assert(es.take(objects@.len() as int) =~= es);
    let entries = map.items();
    let mut out: Vec<StoredObject> = Vec::new();
    let mut k: usize = 0;
    while k < entries.len()
        invariant
            k <= entries@.len(),
            out@.len() == k,
            forall|j: int| 0 <= j < k ==> (#[trigger] out@[j]).content() == entries@[j].1.content(),
        decreases entries@.len() - k,
    {
        out.push(entries[k].1.copy());
        k = k + 1;
    }
    assert(contents(out@) =~= Seq::new(entries@.len(), |i: int| entries@[i].1.content()));
    out
}

/// The entries of a map of text, in order.
pub(crate) fn list_texts(m: &OrdMap<String, String>) -> (r: Vec<(String, String)>)
    ensures
        r@ == m.seq(),
{
    let entries = m.items();
    let mut out: Vec<(String, String)> = Vec::new();
    let mut i: usize = 0;
    while i < entries.len()
        invariant
            i <= entries@.len(),
            out@ == entries@.take(i as int),
        decreases entries@.len() - i,
    {
        out.push((entries[i].0.clone(), entries[i].1.clone()));
        i = i + 1;
        assert(out@ =~= entries@.take(i as int));
    }
    assert(out@ =~= entries@);
    out
}

/// The entries of a map of hashes, in order.
fn list_hashes(m: &OrdMap<String, Digest>) -> (r: Vec<(String, Digest)>)
    ensures
        r@ == m.seq(),
{
    let entries = m.items();
    let mut out: Vec<(String, Digest)> = Vec::new();
    let mut i: usize = 0;
    while i < entries.len()
        invariant
            i <= entries@.len(),
            out@ == entries@.take(i as int),
        decreases entries@.len() - i,
    {
        out.push((entries[i].0.clone(), entries[i].1));
        i = i + 1;
        assert(out@ =~= entries@.take(i as int));
    }
    assert(out@ =~= entries@);
    out
}

/// What pairs of text bind; of two pairs with the same first text the later
/// counts.
pub open spec fn bound_texts(s: Seq<(Seq<char>, Seq<char>)>) -> Map<Seq<char>, Seq<char>>
    decreases s.len(),
{
    if s.len() == 0 {
        Map::empty()
    } else {
        bound_texts(s.drop_last()).insert(s.last().0, s.last().1)
    }
}

/// The map that pairs of text make up.
pub(crate) fn bind_texts(s: &Vec<(String, String)>) -> (r: OrdMap<String, String>)
    ensures
        text_map(r@) == bound_texts(s.content()),
{
    let ghost all = s.content();
    let mut m: OrdMap<String, String> = OrdMap::new();
    let mut i: usize = 0;
    assert(all.take(0) =~= seq![]);
    assert(text_map(m@) =~= Map::empty());
    while i < s.len()
        invariant
            i <= s@.len(),
            all == s.content(),
            text_map(m@) == bound_texts(all.take(i as int)),
        decreases s@.len() - i,
    {
        let ghost was = text_map(m@);
        assert(all.take(i + 1).drop_last() =~= all.take(i as int));
        assert(all[i as int] == (s@[i as int].0@, s@[i as int].1@));
        m.insert(owned(s[i].0.as_str()), owned(s[i].1.as_str()));
        assert(text_map(m@) =~= was.insert(s@[i as int].0@, s@[i as int].1@));
        i = i + 1;
    }
    assert(all.take(s@.len() as int) =~= all);
    m
}

/// What a hash becomes under a remapping.
pub open spec fn moved(remap: Map<Seq<u8>, Seq<u8>>, h: Seq<u8>) -> Seq<u8> {
    if remap.contains_key(h) {
        remap[h]
    } else {
        h
    }
}

/// What a constant becomes under a remapping: references to functions move, the
/// rest stays.
pub open spec fn moved_constant(remap: Map<Seq<u8>, Seq<u8>>, c: ConstantView) -> ConstantView {
    match c {
        ConstantView::Function(h) => ConstantView::Function(moved(remap, h)),
        ConstantView::Method(m) => ConstantView::Method(
            MethodView {
                impl_fn: match m.impl_fn {
                    Some(h) => Some(moved(remap, h)),
                    None => None,
                },
                ..m
            },
        ),
        _ => c,
    }
}

/// What a function becomes under a remapping.
pub open spec fn moved_function(remap: Map<Seq<u8>, Seq<u8>>, f: FunctionView) -> FunctionView {
    FunctionView {
        constants: Seq::new(f.constants.len(), |i: int| moved_constant(remap, f.constants[i])),
        dependencies: Seq::new(f.dependencies.len(), |i: int| moved(remap, f.dependencies[i])),
        ..f
    }
}

/// What a pre-link form becomes under a remapping.
pub open spec fn moved_prelink(remap: Map<Seq<u8>, Seq<u8>>, v: PrelinkView) -> PrelinkView {
    PrelinkView {
        functions: Seq::new(
            v.functions.len(),
            |i: int|
                (v.functions[i].0, v.functions[i].1, moved_function(remap, v.functions[i].2)),
        ),
        lambdas: Seq::new(
            v.lambdas.len(),
            |i: int| (v.lambdas[i].0, moved_function(remap, v.lambdas[i].1)),
        ),
        ..v
    }
}

/// Whether a pre-link form is another under a remapping: every function has moved,
/// with its own hash and its debug information as they were, and all else is the
/// same.
pub open spec fn remapped(
    remap: Map<Seq<u8>, Seq<u8>>,
    a: PrelinkModule,
    b: PrelinkModule,
) -> bool {
    &&& b == (PrelinkModule { functions: b.functions, lambdas: b.lambdas, ..a })
    &&& b.functions@.len() == a.functions@.len()
    &&& forall|i: int|
        0 <= i < a.functions@.len() ==> (#[trigger] b.functions@[i]).name@ == a.functions@[i].name@
            && b.functions@[i].is_main == a.functions@[i].is_main && b.functions@[i].func@
            == moved_function(remap, a.functions@[i].func@)
    &&& b.lambdas@.len() == a.lambdas@.len()
    &&& forall|i: int|
        0 <= i < a.lambdas@.len() ==> (#[trigger] b.lambdas@[i]).temp_hash == a.lambdas@[i].temp_hash
            && b.lambdas@[i].parent@ == a.lambdas@[i].parent@ && b.lambdas@[i].func@
            == moved_function(remap, a.lambdas@[i].func@)
}

/// The bytes of a remapping.
pub open spec fn remap_view(m: Map<Seq<u8>, Digest>) -> Map<Seq<u8>, Seq<u8>> {
    m.map_values(|h: Digest| h@)
}

fn move_hash(remap: &OrdMap<Digest, Digest>, h: &Digest) -> (r: Digest)
    ensures
        r@ == moved(remap_view(remap@), h@),
{
    match remap.get(h) {
        Some(new) => *new,
        None => *h,
    }
}

/// Replace the references of a function that have moved.
fn remap_function(func: &CompiledFunction, remap: &OrdMap<Digest, Digest>) -> (r: CompiledFunction)
    ensures
        r@ == moved_function(remap_view(remap@), func@),
{
    let ghost rv = remap_view(remap@);
    let ghost cs = constant_views(func.constants@);
    let mut constants: Vec<Constant> = Vec::new();
    let mut i: usize = 0;
    while i < func.constants.len()
        invariant
            i <= func.constants@.len(),
            rv == remap_view(remap@),
            cs == constant_views(func.constants@),
            constants@.len() == i,
            forall|k: int| 0 <= k < i ==> (#[trigger] constants@[k])@ == moved_constant(rv, cs[k]),
        decreases func.constants@.len() - i,
    {
        assert(cs[i as int] == func.constants@[i as int]@);
        let c = match &func.constants[i] {
            Constant::Function(h) => Constant::Function(move_hash(remap, h)),
            Constant::Method(m) => {
                let impl_fn = match &m.impl_fn {
                    Some(h) => Some(move_hash(remap, h)),
                    None => None,
                };
                Constant::Method(
                    AbilityMethodRef {
                        ability_id: m.ability_id,
                        ability_uuid: m.ability_uuid,
                        signature: m.signature,
                        impl_fn,
                        never: m.never,
                    },
                )
            },
            other => other.copy(),
        };
        constants.push(c);
        i = i + 1;
    }
    let mut dependencies: Vec<Digest> = Vec::new();
    let mut k: usize = 0;
    while k < func.dependencies.len()
        invariant
            k <= func.dependencies@.len(),
            rv == remap_view(remap@),
            dependencies@.len() == k,
            forall|j: int|
                0 <= j < k ==> (#[trigger] dependencies@[j])@ == moved(
                    rv,
                    func.dependencies@[j]@,
                ),
        decreases func.dependencies@.len() - k,
    {
        dependencies.push(move_hash(remap, &func.dependencies[k]));
        k = k + 1;
    }
    let r = CompiledFunction {
        hash: func.hash,
        bytecode: crate::wire::copy_bytes(&func.bytecode),
        constants,
        local_count: func.local_count,
        param_count: func.param_count,
        dependencies,
        debug_info: match &func.debug_info {
            Some(d) => Some(d.copy()),
            None => None,
        },
    };
    proof {
        let want = moved_function(rv, func@);
        assert(r@.constants =~= want.constants);
        assert(r@.dependencies =~= want.dependencies);
    }
    r
}

/// The named functions of a form as they are assembled.
pub open spec fn named_inputs(s: Seq<PrelinkFn>, out: Seq<(String, CompiledFunction, bool)>) -> bool {
    out.len() == s.len() && forall|i: int|
        0 <= i < s.len() ==> (#[trigger] out[i]).0@ == s[i].name@ && out[i].1@ == s[i].func@
            && out[i].2 == s[i].is_main
}

/// The lambdas of a form as they are assembled.
pub open spec fn lambda_inputs(
    s: Seq<PrelinkLambda>,
    out: Seq<(Digest, String, CompiledFunction)>,
) -> bool {
    out.len() == s.len() && forall|i: int|
        0 <= i < s.len() ==> (#[trigger] out[i]).0@ == s[i].temp_hash@ && out[i].1@ == s[i].parent@
            && out[i].2@ == s[i].func@
}

/// Whether a pre-link form is assembled from these inputs.
pub open spec fn inputs_of(p: PrelinkModule, r: AssembleInputs) -> bool {
    &&& named_inputs(p.functions@, r.compiled_functions@)
    &&& lambda_inputs(p.lambdas@, r.lambdas@)
    &&& text_map(r.ability_impl_group_names@) == bound_texts(p.ability_group_names.content())
    &&& contents(r.const_objects@) == contents(p.const_objects@)
    &&& r.const_names.content() == p.const_names.content()
    &&& contents(r.native_objects@) == contents(p.native_objects@)
    &&& r.native_names.content() == p.native_names.content()
    &&& migration_parts(r.migrations@) == migration_parts(p.migrations@)
    &&& check_views(r.ability_checks@) == check_views(p.ability_checks@)
}

impl PrelinkModule {
    /// The form of what a compilation produced. Everything is put in order, so
    /// the same module has the same form in whatever order its parts come.
    pub fn from_compile(
        functions: Vec<PrelinkFn>,
        lambdas: Vec<PrelinkLambda>,
        ability_group_names: &OrdMap<String, String>,
        const_objects: &Vec<StoredObject>,
        const_names: &OrdMap<String, Digest>,
        native_objects: &Vec<StoredObject>,
        native_names: &OrdMap<String, Digest>,
        migrations: Vec<MigrationRecord>,
        ability_checks: Vec<AbilityMethodCheck>,
    ) -> (r: PrelinkModule)
        ensures
            r.functions@ == sorted(functions@),
            r.lambdas@ == sorted(lambdas@),
            r.ability_group_names@ == ability_group_names.seq(),
            lists_by_hash(contents(r.const_objects@), by_hash(const_objects@)),
            r.const_names@ == const_names.seq(),
            lists_by_hash(contents(r.native_objects@), by_hash(native_objects@)),
            r.native_names@ == native_names.seq(),
            r.migrations@ == sorted(migrations@),
            r.ability_checks@ == sorted(ability_checks@),
            r.signatures@ == Seq::<(String, String)>::empty(),
    {
        PrelinkModule {
            functions: stable_sort(functions),
            lambdas: stable_sort(lambdas),
            ability_group_names: list_texts(ability_group_names),
            const_objects: dedup_objects(const_objects),
            native_objects: dedup_objects(native_objects),
            const_names: list_hashes(const_names),
            native_names: list_hashes(native_names),
            migrations: stable_sort(migrations),
            ability_checks: stable_sort(ability_checks),
            signatures: Vec::new(),
        }
    }

    /// Attach the signatures, in the order of their names.
    pub fn set_signatures(&mut self, signatures: &OrdMap<String, String>)
        ensures
            *final(self) == (PrelinkModule {
                signatures: final(self).signatures,
                ..*old(self)
            }),
            final(self).signatures@ == signatures.seq(),
    {
        self.signatures = list_texts(signatures);
    }

    /// What the module is assembled from.
    pub fn to_assemble_inputs(&self) -> (r: AssembleInputs)
        ensures
            inputs_of(*self, r),
    {
        let mut compiled_functions: Vec<(String, CompiledFunction, bool)> = Vec::new();
        let mut i: usize = 0;
        while i < self.functions.len()
            invariant
                i <= self.functions@.len(),
                compiled_functions@.len() == i,
                forall|k: int|
                    0 <= k < i ==> (#[trigger] compiled_functions@[k]).0@ == self.functions@[k].name@
                        && compiled_functions@[k].1@ == self.functions@[k].func@
                        && compiled_functions@[k].2 == self.functions@[k].is_main,
            decreases self.functions@.len() - i,
        {
            let f = &self.functions[i];
            compiled_functions.push((owned(f.name.as_str()), f.func.copy(), f.is_main));
            i = i + 1;
        }
        let mut lambdas: Vec<(Digest, String, CompiledFunction)> = Vec::new();
        let mut k: usize = 0;
        while k < self.lambdas.len()
            invariant
                k <= self.lambdas@.len(),
                lambdas@.len() == k,
                forall|j: int|
                    0 <= j < k ==> (#[trigger] lambdas@[j]).0@ == self.lambdas@[j].temp_hash@
                        && lambdas@[j].1@ == self.lambdas@[j].parent@ && lambdas@[j].2@
                        == self.lambdas@[j].func@,
            decreases self.lambdas@.len() - k,
        {
            let l = &self.lambdas[k];
            lambdas.push((l.temp_hash, owned(l.parent.as_str()), l.func.copy()));
            k = k + 1;
        }
        let migrations = copy_migrations(&self.migrations);
        proof {
            let views = migration_views(self.migrations@);
            assert(migrations@.len() == migration_views(migrations@).len() == views.len());
            assert forall|i: int| 0 <= i < migrations@.len() implies migration_parts(migrations@)[i]
                == migration_parts(self.migrations@)[i] by {
                assert(migration_views(migrations@)[i] == views[i]);
                assert(migrations@[i]@ == self.migrations@[i]@);
            }
            assert(migration_parts(migrations@) =~= migration_parts(self.migrations@));
        }
        AssembleInputs {
            compiled_functions,
            lambdas,
            ability_impl_group_names: bind_texts(&self.ability_group_names),
            const_objects: copy_objects(&self.const_objects),
            const_names: copy_bound(&self.const_names),
            native_objects: copy_objects(&self.native_objects),
            native_names: copy_bound(&self.native_names),
            migrations,
            ability_checks: copy_checks(&self.ability_checks),
        }
    }

    /// The signatures by name.
    pub fn signature_map(&self) -> (r: OrdMap<String, String>)
        ensures
            text_map(r@) == bound_texts(self.signatures.content()),
    {
        bind_texts(&self.signatures)
    }

    /// Replace the hashes that have moved, in every reference to a function and
    /// every dependency.
    pub fn remap(&mut self, remap: &OrdMap<Digest, Digest>)
        ensures
            remapped(remap_view(remap@), *old(self), *final(self)),
            final(self)@ == moved_prelink(remap_view(remap@), old(self)@),
    {
        let ghost rv = remap_view(remap@);
        let mut functions: Vec<PrelinkFn> = Vec::new();
        let mut i: usize = 0;
        while i < self.functions.len()
            invariant
                i <= self.functions@.len(),
                rv == remap_view(remap@),
                functions@.len() == i,
                forall|k: int|
                    0 <= k < i ==> (#[trigger] functions@[k]).name@ == self.functions@[k].name@
                        && functions@[k].is_main == self.functions@[k].is_main
                        && functions@[k].func@ == moved_function(rv, self.functions@[k].func@),
            decreases self.functions@.len() - i,
        {
            let f = &self.functions[i];
            functions.push(
                PrelinkFn {
                    name: owned(f.name.as_str()),
                    is_main: f.is_main,
                    func: remap_function(&f.func, remap),
                },
            );
            i = i + 1;
        }
        let mut lambdas: Vec<PrelinkLambda> = Vec::new();
        let mut k: usize = 0;
        while k < self.lambdas.len()
            invariant
                k <= self.lambdas@.len(),
                rv == remap_view(remap@),
                lambdas@.len() == k,
                forall|j: int|
                    0 <= j < k ==> (#[trigger] lambdas@[j]).temp_hash == self.lambdas@[j].temp_hash
                        && lambdas@[j].parent@ == self.lambdas@[j].parent@ && lambdas@[j].func@
                        == moved_function(rv, self.lambdas@[j].func@),
            decreases self.lambdas@.len() - k,
        {
            let l = &self.lambdas[k];
            lambdas.push(
                PrelinkLambda {
                    temp_hash: l.temp_hash,
                    parent: owned(l.parent.as_str()),
                    func: remap_function(&l.func, remap),
                },
            );
            k = k + 1;
        }
        let ghost before = self@;
        let ghost fs = functions@;
        let ghost ls = lambdas@;
        self.functions = functions;
        self.lambdas = lambdas;
        proof {
            let want = PrelinkView {
                functions: Seq::new(
                    before.functions.len(),
                    |i: int|
                        (
                            before.functions[i].0,
                            before.functions[i].1,
                            moved_function(rv, before.functions[i].2),
                        ),
                ),
                lambdas: Seq::new(
                    before.lambdas.len(),
                    |i: int| (before.lambdas[i].0, moved_function(rv, before.lambdas[i].1)),
                ),
                ..before
            };
            assert forall|i: int| 0 <= i < fs.len() implies self@.functions[i]
                == want.functions[i] by {
                assert(self.functions@[i] == fs[i]);
            }
            assert(self@.functions =~= want.functions);
            assert forall|i: int| 0 <= i < ls.len() implies self@.lambdas[i] == want.lambdas[i] by {
                assert(self.lambdas@[i] == ls[i]);
            }
            assert(self@.lambdas =~= want.lambdas);
        }
    }
}

} // verus!
