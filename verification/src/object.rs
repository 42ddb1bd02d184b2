//! Stored objects: the canonical bytes whose hash is a function's identity.
//!
//! An object is a plain function, a group of mutually recursive functions, a
//! redirect from a group member's hash to its group, the value of a constant,
//! or a native function of the host.

use vstd::bytes::*;
use vstd::prelude::*;

use crate::bytecode::{
    constant_views, digest_views, AbilityMethodRef, CompiledFunction, Constant, ConstantView,
    FunctionView, MethodView,
};
use crate::digest::{blake3_hash, Digest};
use crate::text::{decimal_text, owned, push_decimal, push_text};
use crate::wire::{contents, u32_bytes, ObjectFault, Reader, Wire, WireError};

verus! {

broadcast use {
    vstd::string::group_string_axioms,
    vstd::array::group_array_axioms,
    vstd::slice::group_slice_axioms,
};

/// A reference from one object to another.
#[derive(Debug, Clone, Copy, PartialEq, Eq)]
pub enum ObjectRef {
    /// A member of the same group, by its position.
    Internal(u32),
    /// Any other object, by its hash.
    External(Digest),
}

/// A method of an ability, as an object holds it.
#[derive(Debug, Clone, Copy, PartialEq, Eq)]
pub struct ObjectMethod {
    /// The identity of the ability.
    pub ability_id: u64,
    /// The uuid of the ability's declaration.
    pub ability_uuid: [u8; 16],
    /// The canonical signature hash of the method.
    pub signature: [u8; 32],
    /// The default implementation, if there is one.
    pub impl_fn: Option<ObjectRef>,
    /// Whether a perform of the method never returns.
    pub never: bool,
}

/// A constant of a stored function.
#[derive(Debug, PartialEq, Eq)]
pub enum ObjectConstant {
    /// The unit value.
    Unit,
    /// A boolean.
    Bool(bool),
    /// A number, by its IEEE-754 bits.
    Number(u64),
    /// Text.
    String(String),
    /// A reference to a function.
    Ref(ObjectRef),
    /// A reference to the object of a constant.
    ValueRef(Digest),
    /// A reference to a method of an ability.
    Method(ObjectMethod),
}

/// A stored function.
#[derive(Debug, PartialEq, Eq)]
pub struct ObjectFunction {
    /// The instructions.
    pub bytecode: Vec<u8>,
    /// The constants.
    pub constants: Vec<ObjectConstant>,
    /// The number of local slots.
    pub local_count: u16,
    /// The number of parameters.
    pub param_count: u8,
    /// The objects that the function refers to.
    pub dependencies: Vec<ObjectRef>,
}

/// A member of a group.
#[derive(Debug, PartialEq, Eq)]
pub struct GroupMember {
    /// The name that tells the member apart; lambdas have none.
    pub name: Option<String>,
    /// The function.
    pub function: ObjectFunction,
}

/// The value of a constant.
#[derive(Debug, PartialEq, Eq)]
pub enum StoredValue {
    /// The unit value.
    Unit,
    /// A boolean.
    Bool(bool),
    /// A number, by its IEEE-754 bits.
    Number(u64),
    /// Text.
    String(String),
}

/// A native function of the host.
#[derive(Debug, Clone, Copy, PartialEq, Eq)]
pub struct NativeFunction {
    /// The uuid of the host binding.
    pub uuid: [u8; 16],
    /// The number of parameters.
    pub param_count: u8,
}

/// Where a group member is found.
#[derive(Debug, Clone, Copy, PartialEq, Eq)]
pub struct RedirectTarget {
    /// The group.
    pub group: Digest,
    /// The position in the group.
    pub index: u32,
}

/// A stored object.
#[derive(Debug, PartialEq, Eq)]
pub enum StoredObject {
    /// A function that is not recursive.
    Plain(ObjectFunction),
    /// A group of mutually recursive functions.
    Group(Vec<GroupMember>),
    /// A redirect from a member's hash to its group.
    Redirect(RedirectTarget),
    /// The value of a constant.
    Value(StoredValue),
    /// A native function of the host.
    Native(NativeFunction),
}

// ── contents ────────────────────────────────────────────────────────────────

/// What an [`ObjectRef`] says.
pub enum RefView {
    /// A member of the same group, by its position.
    Internal(u32),
    /// Any other object, by its hash.
    External(Seq<u8>),
}

/// What an [`ObjectMethod`] says.
pub struct ObjectMethodView {
    /// The identity of the ability.
    pub ability_id: u64,
    /// The uuid of the ability's declaration.
    pub ability_uuid: Seq<u8>,
    /// The canonical signature hash of the method.
    pub signature: Seq<u8>,
    /// The default implementation.
    pub impl_fn: Option<RefView>,
    /// Whether a perform of the method never returns.
    pub never: bool,
}

/// What an [`ObjectConstant`] says.
pub enum ObjectConstantView {
    /// The unit value.
    Unit,
    /// A boolean.
    Bool(bool),
    /// A number, by its IEEE-754 bits.
    Number(u64),
    /// Text.
    String(Seq<char>),
    /// A reference to a function.
    Ref(RefView),
    /// A reference to the object of a constant.
    ValueRef(Seq<u8>),
    /// A reference to a method of an ability.
    Method(ObjectMethodView),
}

/// What an [`ObjectFunction`] says.
pub struct ObjectFunctionView {
    /// The instructions.
    pub bytecode: Seq<u8>,
    /// The constants.
    pub constants: Seq<ObjectConstantView>,
    /// The number of local slots.
    pub local_count: u16,
    /// The number of parameters.
    pub param_count: u8,
    /// The objects that the function refers to.
    pub dependencies: Seq<RefView>,
}

/// What a [`GroupMember`] says.
pub struct MemberView {
    /// The name that tells the member apart.
    pub name: Option<Seq<char>>,
    /// The function.
    pub function: ObjectFunctionView,
}

/// What a [`StoredValue`] says.
pub enum StoredValueView {
    /// The unit value.
    Unit,
    /// A boolean.
    Bool(bool),
    /// A number, by its IEEE-754 bits.
    Number(u64),
    /// Text.
    String(Seq<char>),
}

/// What a [`NativeFunction`] says.
pub struct NativeView {
    /// The uuid of the host binding.
    pub uuid: Seq<u8>,
    /// The number of parameters.
    pub param_count: u8,
}

/// What a [`RedirectTarget`] says.
pub struct RedirectView {
    /// The group.
    pub group: Seq<u8>,
    /// The position in the group.
    pub index: u32,
}

/// What a [`StoredObject`] says.
pub enum ObjectView {
    /// A function that is not recursive.
    Plain(ObjectFunctionView),
    /// A group of mutually recursive functions.
    Group(Seq<MemberView>),
    /// A redirect from a member's hash to its group.
    Redirect(RedirectView),
    /// The value of a constant.
    Value(StoredValueView),
    /// A native function of the host.
    Native(NativeView),
}

/// `a` before `b` before `c`, however they are grouped.
proof fn cat_assoc(a: Seq<u8>, b: Seq<u8>, c: Seq<u8>)
    ensures
        a + (b + c) == (a + b) + c,
{
    assert(a + (b + c) =~= (a + b) + c);
}

// ── encodings ───────────────────────────────────────────────────────────────

impl Wire for ObjectRef {
    type W = RefView;

    open spec fn content(&self) -> RefView {
        match *self {
            ObjectRef::Internal(x) => RefView::Internal(x.content()),
            ObjectRef::External(x) => RefView::External(x.content()),
        }
    }

    open spec fn fits(w: RefView) -> bool {
        match w {
            RefView::Internal(x) => <u32 as Wire>::fits(x),
            RefView::External(x) => <Digest as Wire>::fits(x),
        }
    }

    open spec fn bytes(w: RefView) -> Seq<u8> {
        match w {
            RefView::Internal(x) => seq![0u8] + <u32 as Wire>::bytes(x),
            RefView::External(x) => seq![1u8] + <Digest as Wire>::bytes(x),
        }
    }

    open spec fn parse(s: Seq<u8>) -> Result<(RefView, int), WireError> {
        if s.len() == 0 {
            Err(WireError::Truncated)
        } else if s[0] == 0 {
            match <u32 as Wire>::parse(s.skip(1)) {
                Err(e) => Err(e),
                Ok((x, n)) => Ok((RefView::Internal(x), 1 + n)),
            }
        } else if s[0] == 1 {
            match <Digest as Wire>::parse(s.skip(1)) {
                Err(e) => Err(e),
                Ok((x, n)) => Ok((RefView::External(x), 1 + n)),
            }
        } else {
            Err(WireError::BadTag(s[0]))
        }
    }

    proof fn reads_back(w: RefView, tail: Seq<u8>) {
        match w {
            RefView::Internal(x) => {
                <u32 as Wire>::reads_back(x, tail);
                assert((Self::bytes(w) + tail).skip(1) =~= <u32 as Wire>::bytes(x) + tail);
            },
            RefView::External(x) => {
                <Digest as Wire>::reads_back(x, tail);
                assert((Self::bytes(w) + tail).skip(1) =~= <Digest as Wire>::bytes(x) + tail);
            },
        }
    }

    proof fn reads_only_encodings(s: Seq<u8>) {
        if s.len() > 0 {
            if s[0] == 0 {
                <u32 as Wire>::reads_only_encodings(s.skip(1));
                if let Ok((x, n)) = <u32 as Wire>::parse(s.skip(1)) {
                    assert(seq![0u8] + <u32 as Wire>::bytes(x) =~= s.take(1 + n));
                }
            } else if s[0] == 1 {
                <Digest as Wire>::reads_only_encodings(s.skip(1));
                if let Ok((x, n)) = <Digest as Wire>::parse(s.skip(1)) {
                    assert(seq![1u8] + <Digest as Wire>::bytes(x) =~= s.take(1 + n));
                }
            }
        }
    }

    proof fn cut_short(s: Seq<u8>, k: int) {
        if k > 0 {
            assert(s.take(k)[0] == s[0]);
            assert(s.take(k).skip(1) =~= s.skip(1).take(k - 1));
            <u32 as Wire>::cut_short(s.skip(1), k - 1);
            <Digest as Wire>::cut_short(s.skip(1), k - 1);
        }
    }

    fn put(&self, out: &mut Vec<u8>) {
        match self {
            ObjectRef::Internal(x) => {
                out.push(0);
                x.put(out);
            },
            ObjectRef::External(x) => {
                out.push(1);
                x.put(out);
            },
        }
        assert(out@ =~= old(out)@ + Self::bytes(self.content()));
    }

    fn get(r: &mut Reader<'_>) -> (res: Result<ObjectRef, WireError>) {
        let ghost s = r.rest();
        let raw = r.take(1)?;
        match raw[0] {
            0 => {
                let x = <u32 as Wire>::get(r)?;
                proof {
                    <u32 as Wire>::reads_only_encodings(s.skip(1));
                    let (_, n) = <u32 as Wire>::parse(s.skip(1))->Ok_0;
                    assert(s.skip(1).skip(n) =~= s.skip(1 + n));
                }
                Ok(ObjectRef::Internal(x))
            },
            1 => {
                let x = <Digest as Wire>::get(r)?;
                proof {
                    <Digest as Wire>::reads_only_encodings(s.skip(1));
                    let (_, n) = <Digest as Wire>::parse(s.skip(1))->Ok_0;
                    assert(s.skip(1).skip(n) =~= s.skip(1 + n));
                }
                Ok(ObjectRef::External(x))
            },
            other => Err(WireError::BadTag(other)),
        }
    }
}

/// The parts of a `ObjectMethod` in the order they are written.
pub type ObjectMethodParts = (u64, ([u8; 16], ([u8; 32], (Option<ObjectRef>, bool))));

/// The contents of the parts of a `ObjectMethod`.
pub type ObjectMethodContents = (u64, (Seq<u8>, (Seq<u8>, (Option<RefView>, bool))));

/// The parts of a content in the order they are written.
pub open spec fn object_method_parts(w: ObjectMethodView) -> ObjectMethodContents {
    (w.ability_id, (w.ability_uuid, (w.signature, (w.impl_fn, w.never))))
}

/// The content made of some parts.
pub open spec fn object_method_of(p: ObjectMethodContents) -> ObjectMethodView {
    ObjectMethodView {
        ability_id: p.0,
        ability_uuid: p.1.0,
        signature: p.1.1.0,
        impl_fn: p.1.1.1.0,
        never: p.1.1.1.1,
    }
}

/// Whether every length in a content fits its `u32` prefix.
#[verifier::opaque]
pub open spec fn object_method_fits(w: ObjectMethodView) -> bool {
    ObjectMethodParts::fits(object_method_parts(w))
}

/// The encoding of a content.
#[verifier::opaque]
pub open spec fn object_method_bytes(w: ObjectMethodView) -> Seq<u8> {
    ObjectMethodParts::bytes(object_method_parts(w))
}

/// The content that a byte string begins with.
#[verifier::opaque]
pub open spec fn object_method_parse(s: Seq<u8>) -> Result<(ObjectMethodView, int), WireError> {
    match ObjectMethodParts::parse(s) {
        Ok((p, n)) => Ok((object_method_of(p), n)),
        Err(e) => Err(e),
    }
}

impl Wire for ObjectMethod {
    type W = ObjectMethodView;

    open spec fn content(&self) -> ObjectMethodView {
        ObjectMethodView {
            ability_id: self.ability_id.content(),
            ability_uuid: self.ability_uuid.content(),
            signature: self.signature.content(),
            impl_fn: self.impl_fn.content(),
            never: self.never.content(),
        }
    }

    open spec fn fits(w: ObjectMethodView) -> bool {
        object_method_fits(w)
    }

    open spec fn bytes(w: ObjectMethodView) -> Seq<u8> {
        object_method_bytes(w)
    }

    open spec fn parse(s: Seq<u8>) -> Result<(ObjectMethodView, int), WireError> {
        object_method_parse(s)
    }

    proof fn reads_back(w: ObjectMethodView, tail: Seq<u8>) {
        reveal(object_method_fits);
        reveal(object_method_bytes);
        reveal(object_method_parse);
        ObjectMethodParts::reads_back(object_method_parts(w), tail);
    }

    proof fn reads_only_encodings(s: Seq<u8>) {
        reveal(object_method_fits);
        reveal(object_method_bytes);
        reveal(object_method_parse);
        ObjectMethodParts::reads_only_encodings(s);
    }

    proof fn cut_short(s: Seq<u8>, k: int) {
        reveal(object_method_parse);
        ObjectMethodParts::cut_short(s, k);
    }

    fn put(&self, out: &mut Vec<u8>) {
        self.ability_id.put(out);
        self.ability_uuid.put(out);
        self.signature.put(out);
        self.impl_fn.put(out);
        self.never.put(out);
        proof {
            reveal(object_method_bytes);
            let w = self.content();
            let a0 = <u64 as Wire>::bytes(w.ability_id);
            let a1 = <[u8; 16] as Wire>::bytes(w.ability_uuid);
            let a2 = <[u8; 32] as Wire>::bytes(w.signature);
            let a3 = <Option<ObjectRef> as Wire>::bytes(w.impl_fn);
            let a4 = <bool as Wire>::bytes(w.never);
            let t4 = a4;
            let t3 = a3 + t4;
            let t2 = a2 + t3;
            let t1 = a1 + t2;
            let t0 = a0 + t1;
            let s0 = old(out)@;
            cat_assoc(s0, a0, t1);
            let s1 = s0 + a0;
            cat_assoc(s1, a1, t2);
            let s2 = s1 + a1;
            cat_assoc(s2, a2, t3);
            let s3 = s2 + a2;
            cat_assoc(s3, a3, t4);
        }
    }

    fn get(r: &mut Reader<'_>) -> (res: Result<ObjectMethod, WireError>) {
        proof {
            reveal(object_method_parse);
        }
        let (ability_id, (ability_uuid, (signature, (impl_fn, never)))) = ObjectMethodParts::get(r)?;
        Ok(ObjectMethod { ability_id, ability_uuid, signature, impl_fn, never })
    }
}

impl Wire for ObjectConstant {
    type W = ObjectConstantView;

    open spec fn content(&self) -> ObjectConstantView {
        match *self {
            ObjectConstant::Unit => ObjectConstantView::Unit,
            ObjectConstant::Bool(x) => ObjectConstantView::Bool(x.content()),
            ObjectConstant::Number(x) => ObjectConstantView::Number(x.content()),
            ObjectConstant::String(x) => ObjectConstantView::String(x.content()),
            ObjectConstant::Ref(x) => ObjectConstantView::Ref(x.content()),
            ObjectConstant::ValueRef(x) => ObjectConstantView::ValueRef(x.content()),
            ObjectConstant::Method(x) => ObjectConstantView::Method(x.content()),
        }
    }

    open spec fn fits(w: ObjectConstantView) -> bool {
        match w {
            ObjectConstantView::Unit => true,
            ObjectConstantView::Bool(x) => <bool as Wire>::fits(x),
            ObjectConstantView::Number(x) => <u64 as Wire>::fits(x),
            ObjectConstantView::String(x) => <String as Wire>::fits(x),
            ObjectConstantView::Ref(x) => <ObjectRef as Wire>::fits(x),
            ObjectConstantView::ValueRef(x) => <Digest as Wire>::fits(x),
            ObjectConstantView::Method(x) => <ObjectMethod as Wire>::fits(x),
        }
    }

    open spec fn bytes(w: ObjectConstantView) -> Seq<u8> {
        match w {
            ObjectConstantView::Unit => seq![0u8],
            ObjectConstantView::Bool(x) => seq![1u8] + <bool as Wire>::bytes(x),
            ObjectConstantView::Number(x) => seq![2u8] + <u64 as Wire>::bytes(x),
            ObjectConstantView::String(x) => seq![3u8] + <String as Wire>::bytes(x),
            ObjectConstantView::Ref(x) => seq![4u8] + <ObjectRef as Wire>::bytes(x),
            ObjectConstantView::ValueRef(x) => seq![5u8] + <Digest as Wire>::bytes(x),
            ObjectConstantView::Method(x) => seq![6u8] + <ObjectMethod as Wire>::bytes(x),
        }
    }

    open spec fn parse(s: Seq<u8>) -> Result<(ObjectConstantView, int), WireError> {
        if s.len() == 0 {
            Err(WireError::Truncated)
        } else if s[0] == 0 {
            Ok((ObjectConstantView::Unit, 1))
        } else if s[0] == 1 {
            match <bool as Wire>::parse(s.skip(1)) {
                Err(e) => Err(e),
                Ok((x, n)) => Ok((ObjectConstantView::Bool(x), 1 + n)),
            }
        } else if s[0] == 2 {
            match <u64 as Wire>::parse(s.skip(1)) {
                Err(e) => Err(e),
                Ok((x, n)) => Ok((ObjectConstantView::Number(x), 1 + n)),
            }
        } else if s[0] == 3 {
            match <String as Wire>::parse(s.skip(1)) {
                Err(e) => Err(e),
                Ok((x, n)) => Ok((ObjectConstantView::String(x), 1 + n)),
            }
        } else if s[0] == 4 {
            match <ObjectRef as Wire>::parse(s.skip(1)) {
                Err(e) => Err(e),
                Ok((x, n)) => Ok((ObjectConstantView::Ref(x), 1 + n)),
            }
        } else if s[0] == 5 {
            match <Digest as Wire>::parse(s.skip(1)) {
                Err(e) => Err(e),
                Ok((x, n)) => Ok((ObjectConstantView::ValueRef(x), 1 + n)),
            }
        } else if s[0] == 6 {
            match <ObjectMethod as Wire>::parse(s.skip(1)) {
                Err(e) => Err(e),
                Ok((x, n)) => Ok((ObjectConstantView::Method(x), 1 + n)),
            }
        } else {
            Err(WireError::BadTag(s[0]))
        }
    }

    proof fn reads_back(w: ObjectConstantView, tail: Seq<u8>) {
        match w {
            ObjectConstantView::Unit => {},
            ObjectConstantView::Bool(x) => {
                <bool as Wire>::reads_back(x, tail);
                assert((Self::bytes(w) + tail).skip(1) =~= <bool as Wire>::bytes(x) + tail);
            },
            ObjectConstantView::Number(x) => {
                <u64 as Wire>::reads_back(x, tail);
                assert((Self::bytes(w) + tail).skip(1) =~= <u64 as Wire>::bytes(x) + tail);
            },
            ObjectConstantView::String(x) => {
                <String as Wire>::reads_back(x, tail);
                assert((Self::bytes(w) + tail).skip(1) =~= <String as Wire>::bytes(x) + tail);
            },
            ObjectConstantView::Ref(x) => {
                <ObjectRef as Wire>::reads_back(x, tail);
                assert((Self::bytes(w) + tail).skip(1) =~= <ObjectRef as Wire>::bytes(x) + tail);
            },
            ObjectConstantView::ValueRef(x) => {
                <Digest as Wire>::reads_back(x, tail);
                assert((Self::bytes(w) + tail).skip(1) =~= <Digest as Wire>::bytes(x) + tail);
            },
            ObjectConstantView::Method(x) => {
                <ObjectMethod as Wire>::reads_back(x, tail);
                assert((Self::bytes(w) + tail).skip(1) =~= <ObjectMethod as Wire>::bytes(x) + tail);
            },
        }
    }

    proof fn reads_only_encodings(s: Seq<u8>) {
        if s.len() > 0 {
            if s[0] == 0 {
                assert(seq![0u8] =~= s.take(1));
            } else if s[0] == 1 {
                <bool as Wire>::reads_only_encodings(s.skip(1));
                if let Ok((x, n)) = <bool as Wire>::parse(s.skip(1)) {
                    assert(seq![1u8] + <bool as Wire>::bytes(x) =~= s.take(1 + n));
                }
            } else if s[0] == 2 {
                <u64 as Wire>::reads_only_encodings(s.skip(1));
                if let Ok((x, n)) = <u64 as Wire>::parse(s.skip(1)) {
                    assert(seq![2u8] + <u64 as Wire>::bytes(x) =~= s.take(1 + n));
                }
            } else if s[0] == 3 {
                <String as Wire>::reads_only_encodings(s.skip(1));
                if let Ok((x, n)) = <String as Wire>::parse(s.skip(1)) {
                    assert(seq![3u8] + <String as Wire>::bytes(x) =~= s.take(1 + n));
                }
            } else if s[0] == 4 {
                <ObjectRef as Wire>::reads_only_encodings(s.skip(1));
                if let Ok((x, n)) = <ObjectRef as Wire>::parse(s.skip(1)) {
                    assert(seq![4u8] + <ObjectRef as Wire>::bytes(x) =~= s.take(1 + n));
                }
            } else if s[0] == 5 {
                <Digest as Wire>::reads_only_encodings(s.skip(1));
                if let Ok((x, n)) = <Digest as Wire>::parse(s.skip(1)) {
                    assert(seq![5u8] + <Digest as Wire>::bytes(x) =~= s.take(1 + n));
                }
            } else if s[0] == 6 {
                <ObjectMethod as Wire>::reads_only_encodings(s.skip(1));
                if let Ok((x, n)) = <ObjectMethod as Wire>::parse(s.skip(1)) {
                    assert(seq![6u8] + <ObjectMethod as Wire>::bytes(x) =~= s.take(1 + n));
                }
            }
        }
    }

    proof fn cut_short(s: Seq<u8>, k: int) {
        if k > 0 {
            assert(s.take(k)[0] == s[0]);
            assert(s.take(k).skip(1) =~= s.skip(1).take(k - 1));
            <bool as Wire>::cut_short(s.skip(1), k - 1);
            <u64 as Wire>::cut_short(s.skip(1), k - 1);
            <String as Wire>::cut_short(s.skip(1), k - 1);
            <ObjectRef as Wire>::cut_short(s.skip(1), k - 1);
            <Digest as Wire>::cut_short(s.skip(1), k - 1);
            <ObjectMethod as Wire>::cut_short(s.skip(1), k - 1);
        }
    }

    fn put(&self, out: &mut Vec<u8>) {
        match self {
            ObjectConstant::Unit => {
                out.push(0);
            },
            ObjectConstant::Bool(x) => {
                out.push(1);
                x.put(out);
            },
            ObjectConstant::Number(x) => {
                out.push(2);
                x.put(out);
            },
            ObjectConstant::String(x) => {
                out.push(3);
                x.put(out);
            },
            ObjectConstant::Ref(x) => {
                out.push(4);
                x.put(out);
            },
            ObjectConstant::ValueRef(x) => {
                out.push(5);
                x.put(out);
            },
            ObjectConstant::Method(x) => {
                out.push(6);
                x.put(out);
            },
        }
        assert(out@ =~= old(out)@ + Self::bytes(self.content()));
    }

    fn get(r: &mut Reader<'_>) -> (res: Result<ObjectConstant, WireError>) {
        let ghost s = r.rest();
        let raw = r.take(1)?;
        match raw[0] {
            0 => Ok(ObjectConstant::Unit),
            1 => {
                let x = <bool as Wire>::get(r)?;
                proof {
                    <bool as Wire>::reads_only_encodings(s.skip(1));
                    let (_, n) = <bool as Wire>::parse(s.skip(1))->Ok_0;
                    assert(s.skip(1).skip(n) =~= s.skip(1 + n));
                }
                Ok(ObjectConstant::Bool(x))
            },
            2 => {
                let x = <u64 as Wire>::get(r)?;
                proof {
                    <u64 as Wire>::reads_only_encodings(s.skip(1));
                    let (_, n) = <u64 as Wire>::parse(s.skip(1))->Ok_0;
                    assert(s.skip(1).skip(n) =~= s.skip(1 + n));
                }
                Ok(ObjectConstant::Number(x))
            },
            3 => {
                let x = <String as Wire>::get(r)?;
                proof {
                    <String as Wire>::reads_only_encodings(s.skip(1));
                    let (_, n) = <String as Wire>::parse(s.skip(1))->Ok_0;
                    assert(s.skip(1).skip(n) =~= s.skip(1 + n));
                }
                Ok(ObjectConstant::String(x))
            },
            4 => {
                let x = <ObjectRef as Wire>::get(r)?;
                proof {
                    <ObjectRef as Wire>::reads_only_encodings(s.skip(1));
                    let (_, n) = <ObjectRef as Wire>::parse(s.skip(1))->Ok_0;
                    assert(s.skip(1).skip(n) =~= s.skip(1 + n));
                }
                Ok(ObjectConstant::Ref(x))
            },
            5 => {
                let x = <Digest as Wire>::get(r)?;
                proof {
                    <Digest as Wire>::reads_only_encodings(s.skip(1));
                    let (_, n) = <Digest as Wire>::parse(s.skip(1))->Ok_0;
                    assert(s.skip(1).skip(n) =~= s.skip(1 + n));
                }
                Ok(ObjectConstant::ValueRef(x))
            },
            6 => {
                let x = <ObjectMethod as Wire>::get(r)?;
                proof {
                    <ObjectMethod as Wire>::reads_only_encodings(s.skip(1));
                    let (_, n) = <ObjectMethod as Wire>::parse(s.skip(1))->Ok_0;
                    assert(s.skip(1).skip(n) =~= s.skip(1 + n));
                }
                Ok(ObjectConstant::Method(x))
            },
            other => Err(WireError::BadTag(other)),
        }
    }
}

/// The parts of a `ObjectFunction` in the order they are written.
pub type ObjectFunctionParts = (Vec<u8>, (Vec<ObjectConstant>, (u16, (u8, Vec<ObjectRef>))));

/// The contents of the parts of a `ObjectFunction`.
pub type ObjectFunctionContents = (Seq<u8>, (Seq<ObjectConstantView>, (u16, (u8, Seq<RefView>))));

/// The parts of a content in the order they are written.
pub open spec fn object_function_parts(w: ObjectFunctionView) -> ObjectFunctionContents {
    (w.bytecode, (w.constants, (w.local_count, (w.param_count, w.dependencies))))
}

/// The content made of some parts.
pub open spec fn object_function_of(p: ObjectFunctionContents) -> ObjectFunctionView {
    ObjectFunctionView {
        bytecode: p.0,
        constants: p.1.0,
        local_count: p.1.1.0,
        param_count: p.1.1.1.0,
        dependencies: p.1.1.1.1,
    }
}

/// Whether every length in a content fits its `u32` prefix.
#[verifier::opaque]
pub open spec fn object_function_fits(w: ObjectFunctionView) -> bool {
    ObjectFunctionParts::fits(object_function_parts(w))
}

/// The encoding of a content.
#[verifier::opaque]
pub open spec fn object_function_bytes(w: ObjectFunctionView) -> Seq<u8> {
    ObjectFunctionParts::bytes(object_function_parts(w))
}

/// The content that a byte string begins with.
#[verifier::opaque]
pub open spec fn object_function_parse(s: Seq<u8>) -> Result<(ObjectFunctionView, int), WireError> {
    match ObjectFunctionParts::parse(s) {
        Ok((p, n)) => Ok((object_function_of(p), n)),
        Err(e) => Err(e),
    }
}

impl Wire for ObjectFunction {
    type W = ObjectFunctionView;

    open spec fn content(&self) -> ObjectFunctionView {
        ObjectFunctionView {
            bytecode: self.bytecode.content(),
            constants: self.constants.content(),
            local_count: self.local_count.content(),
            param_count: self.param_count.content(),
            dependencies: self.dependencies.content(),
        }
    }

    open spec fn fits(w: ObjectFunctionView) -> bool {
        object_function_fits(w)
    }

    open spec fn bytes(w: ObjectFunctionView) -> Seq<u8> {
        object_function_bytes(w)
    }

    open spec fn parse(s: Seq<u8>) -> Result<(ObjectFunctionView, int), WireError> {
        object_function_parse(s)
    }

    proof fn reads_back(w: ObjectFunctionView, tail: Seq<u8>) {
        reveal(object_function_fits);
        reveal(object_function_bytes);
        reveal(object_function_parse);
        ObjectFunctionParts::reads_back(object_function_parts(w), tail);
    }

    proof fn reads_only_encodings(s: Seq<u8>) {
        reveal(object_function_fits);
        reveal(object_function_bytes);
        reveal(object_function_parse);
        ObjectFunctionParts::reads_only_encodings(s);
    }

    proof fn cut_short(s: Seq<u8>, k: int) {
        reveal(object_function_parse);
        ObjectFunctionParts::cut_short(s, k);
    }

    fn put(&self, out: &mut Vec<u8>) {
        self.bytecode.put(out);
        self.constants.put(out);
        self.local_count.put(out);
        self.param_count.put(out);
        self.dependencies.put(out);
        proof {
            reveal(object_function_bytes);
            let w = self.content();
            let a0 = <Vec<u8> as Wire>::bytes(w.bytecode);
            let a1 = <Vec<ObjectConstant> as Wire>::bytes(w.constants);
            let a2 = <u16 as Wire>::bytes(w.local_count);
            let a3 = <u8 as Wire>::bytes(w.param_count);
            let a4 = <Vec<ObjectRef> as Wire>::bytes(w.dependencies);
            let t4 = a4;
            let t3 = a3 + t4;
            let t2 = a2 + t3;
            let t1 = a1 + t2;
            let t0 = a0 + t1;
            let s0 = old(out)@;
            cat_assoc(s0, a0, t1);
            let s1 = s0 + a0;
            cat_assoc(s1, a1, t2);
            let s2 = s1 + a1;
            cat_assoc(s2, a2, t3);
            let s3 = s2 + a2;
            cat_assoc(s3, a3, t4);
        }
    }

    fn get(r: &mut Reader<'_>) -> (res: Result<ObjectFunction, WireError>) {
        proof {
            reveal(object_function_parse);
        }
        let parts = ObjectFunctionParts::get(r)?;
        let (bytecode, (constants, (local_count, (param_count, dependencies)))) = parts;
        Ok(ObjectFunction { bytecode, constants, local_count, param_count, dependencies })
    }
}

/// The parts of a `GroupMember` in the order they are written.
pub type GroupMemberParts = (Option<String>, ObjectFunction);

/// The contents of the parts of a `GroupMember`.
pub type GroupMemberContents = (Option<Seq<char>>, ObjectFunctionView);

/// The parts of a content in the order they are written.
pub open spec fn member_parts(w: MemberView) -> GroupMemberContents {
    (w.name, w.function)
}

/// The content made of some parts.
pub open spec fn member_of(p: GroupMemberContents) -> MemberView {
    MemberView {
        name: p.0,
        function: p.1,
    }
}

/// Whether every length in a content fits its `u32` prefix.
#[verifier::opaque]
pub open spec fn member_fits(w: MemberView) -> bool {
    GroupMemberParts::fits(member_parts(w))
}

/// The encoding of a content.
#[verifier::opaque]
pub open spec fn member_bytes(w: MemberView) -> Seq<u8> {
    GroupMemberParts::bytes(member_parts(w))
}

/// The content that a byte string begins with.
#[verifier::opaque]
pub open spec fn member_parse(s: Seq<u8>) -> Result<(MemberView, int), WireError> {
    match GroupMemberParts::parse(s) {
        Ok((p, n)) => Ok((member_of(p), n)),
        Err(e) => Err(e),
    }
}

impl Wire for GroupMember {
    type W = MemberView;

    open spec fn content(&self) -> MemberView {
        MemberView {
            name: self.name.content(),
            function: self.function.content(),
        }
    }

    open spec fn fits(w: MemberView) -> bool {
        member_fits(w)
    }

    open spec fn bytes(w: MemberView) -> Seq<u8> {
        member_bytes(w)
    }

    open spec fn parse(s: Seq<u8>) -> Result<(MemberView, int), WireError> {
        member_parse(s)
    }

    proof fn reads_back(w: MemberView, tail: Seq<u8>) {
        reveal(member_fits);
        reveal(member_bytes);
        reveal(member_parse);
        GroupMemberParts::reads_back(member_parts(w), tail);
    }

    proof fn reads_only_encodings(s: Seq<u8>) {
        reveal(member_fits);
        reveal(member_bytes);
        reveal(member_parse);
        GroupMemberParts::reads_only_encodings(s);
    }

    proof fn cut_short(s: Seq<u8>, k: int) {
        reveal(member_parse);
        GroupMemberParts::cut_short(s, k);
    }

    fn put(&self, out: &mut Vec<u8>) {
        self.name.put(out);
        self.function.put(out);
        proof {
            reveal(member_bytes);
            let w = self.content();
            let a0 = <Option<String> as Wire>::bytes(w.name);
            let a1 = <ObjectFunction as Wire>::bytes(w.function);
            let t1 = a1;
            let t0 = a0 + t1;
            let s0 = old(out)@;
            cat_assoc(s0, a0, t1);
        }
    }

    fn get(r: &mut Reader<'_>) -> (res: Result<GroupMember, WireError>) {
        proof {
            reveal(member_parse);
        }
        let (name, function) = GroupMemberParts::get(r)?;
        Ok(GroupMember { name, function })
    }
}

impl Wire for StoredValue {
    type W = StoredValueView;

    open spec fn content(&self) -> StoredValueView {
        match *self {
            StoredValue::Unit => StoredValueView::Unit,
            StoredValue::Bool(x) => StoredValueView::Bool(x.content()),
            StoredValue::Number(x) => StoredValueView::Number(x.content()),
            StoredValue::String(x) => StoredValueView::String(x.content()),
        }
    }

    open spec fn fits(w: StoredValueView) -> bool {
        match w {
            StoredValueView::Unit => true,
            StoredValueView::Bool(x) => <bool as Wire>::fits(x),
            StoredValueView::Number(x) => <u64 as Wire>::fits(x),
            StoredValueView::String(x) => <String as Wire>::fits(x),
        }
    }

    open spec fn bytes(w: StoredValueView) -> Seq<u8> {
        match w {
            StoredValueView::Unit => seq![0u8],
            StoredValueView::Bool(x) => seq![1u8] + <bool as Wire>::bytes(x),
            StoredValueView::Number(x) => seq![2u8] + <u64 as Wire>::bytes(x),
            StoredValueView::String(x) => seq![3u8] + <String as Wire>::bytes(x),
        }
    }

    open spec fn parse(s: Seq<u8>) -> Result<(StoredValueView, int), WireError> {
        if s.len() == 0 {
            Err(WireError::Truncated)
        } else if s[0] == 0 {
            Ok((StoredValueView::Unit, 1))
        } else if s[0] == 1 {
            match <bool as Wire>::parse(s.skip(1)) {
                Err(e) => Err(e),
                Ok((x, n)) => Ok((StoredValueView::Bool(x), 1 + n)),
            }
        } else if s[0] == 2 {
            match <u64 as Wire>::parse(s.skip(1)) {
                Err(e) => Err(e),
                Ok((x, n)) => Ok((StoredValueView::Number(x), 1 + n)),
            }
        } else if s[0] == 3 {
            match <String as Wire>::parse(s.skip(1)) {
                Err(e) => Err(e),
                Ok((x, n)) => Ok((StoredValueView::String(x), 1 + n)),
            }
        } else {
            Err(WireError::BadTag(s[0]))
        }
    }

    proof fn reads_back(w: StoredValueView, tail: Seq<u8>) {
        match w {
            StoredValueView::Unit => {},
            StoredValueView::Bool(x) => {
                <bool as Wire>::reads_back(x, tail);
                assert((Self::bytes(w) + tail).skip(1) =~= <bool as Wire>::bytes(x) + tail);
            },
            StoredValueView::Number(x) => {
                <u64 as Wire>::reads_back(x, tail);
                assert((Self::bytes(w) + tail).skip(1) =~= <u64 as Wire>::bytes(x) + tail);
            },
            StoredValueView::String(x) => {
                <String as Wire>::reads_back(x, tail);
                assert((Self::bytes(w) + tail).skip(1) =~= <String as Wire>::bytes(x) + tail);
            },
        }
    }

    proof fn reads_only_encodings(s: Seq<u8>) {
        if s.len() > 0 {
            if s[0] == 0 {
                assert(seq![0u8] =~= s.take(1));
            } else if s[0] == 1 {
                <bool as Wire>::reads_only_encodings(s.skip(1));
                if let Ok((x, n)) = <bool as Wire>::parse(s.skip(1)) {
                    assert(seq![1u8] + <bool as Wire>::bytes(x) =~= s.take(1 + n));
                }
            } else if s[0] == 2 {
                <u64 as Wire>::reads_only_encodings(s.skip(1));
                if let Ok((x, n)) = <u64 as Wire>::parse(s.skip(1)) {
                    assert(seq![2u8] + <u64 as Wire>::bytes(x) =~= s.take(1 + n));
                }
            } else if s[0] == 3 {
                <String as Wire>::reads_only_encodings(s.skip(1));
                if let Ok((x, n)) = <String as Wire>::parse(s.skip(1)) {
                    assert(seq![3u8] + <String as Wire>::bytes(x) =~= s.take(1 + n));
                }
            }
        }
    }

    proof fn cut_short(s: Seq<u8>, k: int) {
        if k > 0 {
            assert(s.take(k)[0] == s[0]);
            assert(s.take(k).skip(1) =~= s.skip(1).take(k - 1));
            <bool as Wire>::cut_short(s.skip(1), k - 1);
            <u64 as Wire>::cut_short(s.skip(1), k - 1);
            <String as Wire>::cut_short(s.skip(1), k - 1);
        }
    }

    fn put(&self, out: &mut Vec<u8>) {
        match self {
            StoredValue::Unit => {
                out.push(0);
            },
            StoredValue::Bool(x) => {
                out.push(1);
                x.put(out);
            },
            StoredValue::Number(x) => {
                out.push(2);
                x.put(out);
            },
            StoredValue::String(x) => {
                out.push(3);
                x.put(out);
            },
        }
        assert(out@ =~= old(out)@ + Self::bytes(self.content()));
    }

    fn get(r: &mut Reader<'_>) -> (res: Result<StoredValue, WireError>) {
        let ghost s = r.rest();
        let raw = r.take(1)?;
        match raw[0] {
            0 => Ok(StoredValue::Unit),
            1 => {
                let x = <bool as Wire>::get(r)?;
                proof {
                    <bool as Wire>::reads_only_encodings(s.skip(1));
                    let (_, n) = <bool as Wire>::parse(s.skip(1))->Ok_0;
                    assert(s.skip(1).skip(n) =~= s.skip(1 + n));
                }
                Ok(StoredValue::Bool(x))
            },
            2 => {
                let x = <u64 as Wire>::get(r)?;
                proof {
                    <u64 as Wire>::reads_only_encodings(s.skip(1));
                    let (_, n) = <u64 as Wire>::parse(s.skip(1))->Ok_0;
                    assert(s.skip(1).skip(n) =~= s.skip(1 + n));
                }
                Ok(StoredValue::Number(x))
            },
            3 => {
                let x = <String as Wire>::get(r)?;
                proof {
                    <String as Wire>::reads_only_encodings(s.skip(1));
                    let (_, n) = <String as Wire>::parse(s.skip(1))->Ok_0;
                    assert(s.skip(1).skip(n) =~= s.skip(1 + n));
                }
                Ok(StoredValue::String(x))
            },
            other => Err(WireError::BadTag(other)),
        }
    }
}

/// The parts of a `NativeFunction` in the order they are written.
pub type NativeFunctionParts = ([u8; 16], u8);

/// The contents of the parts of a `NativeFunction`.
pub type NativeFunctionContents = (Seq<u8>, u8);

/// The parts of a content in the order they are written.
pub open spec fn native_parts(w: NativeView) -> NativeFunctionContents {
    (w.uuid, w.param_count)
}

/// The content made of some parts.
pub open spec fn native_of(p: NativeFunctionContents) -> NativeView {
    NativeView {
        uuid: p.0,
        param_count: p.1,
    }
}

/// Whether every length in a content fits its `u32` prefix.
#[verifier::opaque]
pub open spec fn native_fits(w: NativeView) -> bool {
    NativeFunctionParts::fits(native_parts(w))
}

/// The encoding of a content.
#[verifier::opaque]
pub open spec fn native_bytes(w: NativeView) -> Seq<u8> {
    NativeFunctionParts::bytes(native_parts(w))
}

/// The content that a byte string begins with.
#[verifier::opaque]
pub open spec fn native_parse(s: Seq<u8>) -> Result<(NativeView, int), WireError> {
    match NativeFunctionParts::parse(s) {
        Ok((p, n)) => Ok((native_of(p), n)),
        Err(e) => Err(e),
    }
}

impl Wire for NativeFunction {
    type W = NativeView;

    open spec fn content(&self) -> NativeView {
        NativeView {
            uuid: self.uuid.content(),
            param_count: self.param_count.content(),
        }
    }

    open spec fn fits(w: NativeView) -> bool {
        native_fits(w)
    }

    open spec fn bytes(w: NativeView) -> Seq<u8> {
        native_bytes(w)
    }

    open spec fn parse(s: Seq<u8>) -> Result<(NativeView, int), WireError> {
        native_parse(s)
    }

    proof fn reads_back(w: NativeView, tail: Seq<u8>) {
        reveal(native_fits);
        reveal(native_bytes);
        reveal(native_parse);
        NativeFunctionParts::reads_back(native_parts(w), tail);
    }

    proof fn reads_only_encodings(s: Seq<u8>) {
        reveal(native_fits);
        reveal(native_bytes);
        reveal(native_parse);
        NativeFunctionParts::reads_only_encodings(s);
    }

    proof fn cut_short(s: Seq<u8>, k: int) {
        reveal(native_parse);
        NativeFunctionParts::cut_short(s, k);
    }

    fn put(&self, out: &mut Vec<u8>) {
        self.uuid.put(out);
        self.param_count.put(out);
        proof {
            reveal(native_bytes);
            let w = self.content();
            let a0 = <[u8; 16] as Wire>::bytes(w.uuid);
            let a1 = <u8 as Wire>::bytes(w.param_count);
            let t1 = a1;
            let t0 = a0 + t1;
            let s0 = old(out)@;
            cat_assoc(s0, a0, t1);
        }
    }

    fn get(r: &mut Reader<'_>) -> (res: Result<NativeFunction, WireError>) {
        proof {
            reveal(native_parse);
        }
        let (uuid, param_count) = NativeFunctionParts::get(r)?;
        Ok(NativeFunction { uuid, param_count })
    }
}

/// The parts of a `RedirectTarget` in the order they are written.
pub type RedirectTargetParts = (Digest, u32);

/// The contents of the parts of a `RedirectTarget`.
pub type RedirectTargetContents = (Seq<u8>, u32);

/// The parts of a content in the order they are written.
pub open spec fn redirect_parts(w: RedirectView) -> RedirectTargetContents {
    (w.group, w.index)
}

/// The content made of some parts.
pub open spec fn redirect_of(p: RedirectTargetContents) -> RedirectView {
    RedirectView {
        group: p.0,
        index: p.1,
    }
}

/// Whether every length in a content fits its `u32` prefix.
#[verifier::opaque]
pub open spec fn redirect_fits(w: RedirectView) -> bool {
    RedirectTargetParts::fits(redirect_parts(w))
}

/// The encoding of a content.
#[verifier::opaque]
pub open spec fn redirect_bytes(w: RedirectView) -> Seq<u8> {
    RedirectTargetParts::bytes(redirect_parts(w))
}

/// The content that a byte string begins with.
#[verifier::opaque]
pub open spec fn redirect_parse(s: Seq<u8>) -> Result<(RedirectView, int), WireError> {
    match RedirectTargetParts::parse(s) {
        Ok((p, n)) => Ok((redirect_of(p), n)),
        Err(e) => Err(e),
    }
}

impl Wire for RedirectTarget {
    type W = RedirectView;

    open spec fn content(&self) -> RedirectView {
        RedirectView {
            group: self.group.content(),
            index: self.index.content(),
        }
    }

    open spec fn fits(w: RedirectView) -> bool {
        redirect_fits(w)
    }

    open spec fn bytes(w: RedirectView) -> Seq<u8> {
        redirect_bytes(w)
    }

    open spec fn parse(s: Seq<u8>) -> Result<(RedirectView, int), WireError> {
        redirect_parse(s)
    }

    proof fn reads_back(w: RedirectView, tail: Seq<u8>) {
        reveal(redirect_fits);
        reveal(redirect_bytes);
        reveal(redirect_parse);
        RedirectTargetParts::reads_back(redirect_parts(w), tail);
    }

    proof fn reads_only_encodings(s: Seq<u8>) {
        reveal(redirect_fits);
        reveal(redirect_bytes);
        reveal(redirect_parse);
        RedirectTargetParts::reads_only_encodings(s);
    }

    proof fn cut_short(s: Seq<u8>, k: int) {
        reveal(redirect_parse);
        RedirectTargetParts::cut_short(s, k);
    }

    fn put(&self, out: &mut Vec<u8>) {
        self.group.put(out);
        self.index.put(out);
        proof {
            reveal(redirect_bytes);
            let w = self.content();
            let a0 = <Digest as Wire>::bytes(w.group);
            let a1 = <u32 as Wire>::bytes(w.index);
            let t1 = a1;
            let t0 = a0 + t1;
            let s0 = old(out)@;
            cat_assoc(s0, a0, t1);
        }
    }

    fn get(r: &mut Reader<'_>) -> (res: Result<RedirectTarget, WireError>) {
        proof {
            reveal(redirect_parse);
        }
        let (group, index) = RedirectTargetParts::get(r)?;
        Ok(RedirectTarget { group, index })
    }
}

impl Wire for StoredObject {
    type W = ObjectView;

    open spec fn content(&self) -> ObjectView {
        match *self {
            StoredObject::Plain(x) => ObjectView::Plain(x.content()),
            StoredObject::Group(x) => ObjectView::Group(x.content()),
            StoredObject::Redirect(x) => ObjectView::Redirect(x.content()),
            StoredObject::Value(x) => ObjectView::Value(x.content()),
            StoredObject::Native(x) => ObjectView::Native(x.content()),
        }
    }

    open spec fn fits(w: ObjectView) -> bool {
        match w {
            ObjectView::Plain(x) => <ObjectFunction as Wire>::fits(x),
            ObjectView::Group(x) => <Vec<GroupMember> as Wire>::fits(x),
            ObjectView::Redirect(x) => <RedirectTarget as Wire>::fits(x),
            ObjectView::Value(x) => <StoredValue as Wire>::fits(x),
            ObjectView::Native(x) => <NativeFunction as Wire>::fits(x),
        }
    }

    open spec fn bytes(w: ObjectView) -> Seq<u8> {
        match w {
            ObjectView::Plain(x) => seq![0u8] + <ObjectFunction as Wire>::bytes(x),
            ObjectView::Group(x) => seq![1u8] + <Vec<GroupMember> as Wire>::bytes(x),
            ObjectView::Redirect(x) => seq![2u8] + <RedirectTarget as Wire>::bytes(x),
            ObjectView::Value(x) => seq![3u8] + <StoredValue as Wire>::bytes(x),
            ObjectView::Native(x) => seq![4u8] + <NativeFunction as Wire>::bytes(x),
        }
    }

    open spec fn parse(s: Seq<u8>) -> Result<(ObjectView, int), WireError> {
        if s.len() == 0 {
            Err(WireError::Truncated)
        } else if s[0] == 0 {
            match <ObjectFunction as Wire>::parse(s.skip(1)) {
                Err(e) => Err(e),
                Ok((x, n)) => Ok((ObjectView::Plain(x), 1 + n)),
            }
        } else if s[0] == 1 {
            match <Vec<GroupMember> as Wire>::parse(s.skip(1)) {
                Err(e) => Err(e),
                Ok((x, n)) => Ok((ObjectView::Group(x), 1 + n)),
            }
        } else if s[0] == 2 {
            match <RedirectTarget as Wire>::parse(s.skip(1)) {
                Err(e) => Err(e),
                Ok((x, n)) => Ok((ObjectView::Redirect(x), 1 + n)),
            }
        } else if s[0] == 3 {
            match <StoredValue as Wire>::parse(s.skip(1)) {
                Err(e) => Err(e),
                Ok((x, n)) => Ok((ObjectView::Value(x), 1 + n)),
            }
        } else if s[0] == 4 {
            match <NativeFunction as Wire>::parse(s.skip(1)) {
                Err(e) => Err(e),
                Ok((x, n)) => Ok((ObjectView::Native(x), 1 + n)),
            }
        } else {
            Err(WireError::BadTag(s[0]))
        }
    }

    proof fn reads_back(w: ObjectView, tail: Seq<u8>) {
        match w {
            ObjectView::Plain(x) => {
                <ObjectFunction as Wire>::reads_back(x, tail);
                assert((Self::bytes(w) + tail).skip(1) =~= <ObjectFunction as Wire>::bytes(x) + tail);
            },
            ObjectView::Group(x) => {
                <Vec<GroupMember> as Wire>::reads_back(x, tail);
                assert((Self::bytes(w) + tail).skip(1) =~= <Vec<GroupMember> as Wire>::bytes(x) + tail);
            },
            ObjectView::Redirect(x) => {
                <RedirectTarget as Wire>::reads_back(x, tail);
                assert((Self::bytes(w) + tail).skip(1) =~= <RedirectTarget as Wire>::bytes(x) + tail);
            },
            ObjectView::Value(x) => {
                <StoredValue as Wire>::reads_back(x, tail);
                assert((Self::bytes(w) + tail).skip(1) =~= <StoredValue as Wire>::bytes(x) + tail);
            },
            ObjectView::Native(x) => {
                <NativeFunction as Wire>::reads_back(x, tail);
                assert((Self::bytes(w) + tail).skip(1) =~= <NativeFunction as Wire>::bytes(x) + tail);
            },
        }
    }

    proof fn reads_only_encodings(s: Seq<u8>) {
        if s.len() > 0 {
            if s[0] == 0 {
                <ObjectFunction as Wire>::reads_only_encodings(s.skip(1));
                if let Ok((x, n)) = <ObjectFunction as Wire>::parse(s.skip(1)) {
                    assert(seq![0u8] + <ObjectFunction as Wire>::bytes(x) =~= s.take(1 + n));
                }
            } else if s[0] == 1 {
                <Vec<GroupMember> as Wire>::reads_only_encodings(s.skip(1));
                if let Ok((x, n)) = <Vec<GroupMember> as Wire>::parse(s.skip(1)) {
                    assert(seq![1u8] + <Vec<GroupMember> as Wire>::bytes(x) =~= s.take(1 + n));
                }
            } else if s[0] == 2 {
                <RedirectTarget as Wire>::reads_only_encodings(s.skip(1));
                if let Ok((x, n)) = <RedirectTarget as Wire>::parse(s.skip(1)) {
                    assert(seq![2u8] + <RedirectTarget as Wire>::bytes(x) =~= s.take(1 + n));
                }
            } else if s[0] == 3 {
                <StoredValue as Wire>::reads_only_encodings(s.skip(1));
                if let Ok((x, n)) = <StoredValue as Wire>::parse(s.skip(1)) {
                    assert(seq![3u8] + <StoredValue as Wire>::bytes(x) =~= s.take(1 + n));
                }
            } else if s[0] == 4 {
                <NativeFunction as Wire>::reads_only_encodings(s.skip(1));
                if let Ok((x, n)) = <NativeFunction as Wire>::parse(s.skip(1)) {
                    assert(seq![4u8] + <NativeFunction as Wire>::bytes(x) =~= s.take(1 + n));
                }
            }
        }
    }

    proof fn cut_short(s: Seq<u8>, k: int) {
        if k > 0 {
            assert(s.take(k)[0] == s[0]);
            assert(s.take(k).skip(1) =~= s.skip(1).take(k - 1));
            <ObjectFunction as Wire>::cut_short(s.skip(1), k - 1);
            <Vec<GroupMember> as Wire>::cut_short(s.skip(1), k - 1);
            <RedirectTarget as Wire>::cut_short(s.skip(1), k - 1);
            <StoredValue as Wire>::cut_short(s.skip(1), k - 1);
            <NativeFunction as Wire>::cut_short(s.skip(1), k - 1);
        }
    }

    fn put(&self, out: &mut Vec<u8>) {
        match self {
            StoredObject::Plain(x) => {
                out.push(0);
                x.put(out);
            },
            StoredObject::Group(x) => {
                out.push(1);
                x.put(out);
            },
            StoredObject::Redirect(x) => {
                out.push(2);
                x.put(out);
            },
            StoredObject::Value(x) => {
                out.push(3);
                x.put(out);
            },
            StoredObject::Native(x) => {
                out.push(4);
                x.put(out);
            },
        }
        assert(out@ =~= old(out)@ + Self::bytes(self.content()));
    }

    fn get(r: &mut Reader<'_>) -> (res: Result<StoredObject, WireError>) {
        let ghost s = r.rest();
        let raw = r.take(1)?;
        match raw[0] {
            0 => {
                let x = <ObjectFunction as Wire>::get(r)?;
                proof {
                    <ObjectFunction as Wire>::reads_only_encodings(s.skip(1));
                    let (_, n) = <ObjectFunction as Wire>::parse(s.skip(1))->Ok_0;
                    assert(s.skip(1).skip(n) =~= s.skip(1 + n));
                }
                Ok(StoredObject::Plain(x))
            },
            1 => {
                let x = <Vec<GroupMember> as Wire>::get(r)?;
                proof {
                    <Vec<GroupMember> as Wire>::reads_only_encodings(s.skip(1));
                    let (_, n) = <Vec<GroupMember> as Wire>::parse(s.skip(1))->Ok_0;
                    assert(s.skip(1).skip(n) =~= s.skip(1 + n));
                }
                Ok(StoredObject::Group(x))
            },
            2 => {
                let x = <RedirectTarget as Wire>::get(r)?;
                proof {
                    <RedirectTarget as Wire>::reads_only_encodings(s.skip(1));
                    let (_, n) = <RedirectTarget as Wire>::parse(s.skip(1))->Ok_0;
                    assert(s.skip(1).skip(n) =~= s.skip(1 + n));
                }
                Ok(StoredObject::Redirect(x))
            },
            3 => {
                let x = <StoredValue as Wire>::get(r)?;
                proof {
                    <StoredValue as Wire>::reads_only_encodings(s.skip(1));
                    let (_, n) = <StoredValue as Wire>::parse(s.skip(1))->Ok_0;
                    assert(s.skip(1).skip(n) =~= s.skip(1 + n));
                }
                Ok(StoredObject::Value(x))
            },
            4 => {
                let x = <NativeFunction as Wire>::get(r)?;
                proof {
                    <NativeFunction as Wire>::reads_only_encodings(s.skip(1));
                    let (_, n) = <NativeFunction as Wire>::parse(s.skip(1))->Ok_0;
                    assert(s.skip(1).skip(n) =~= s.skip(1 + n));
                }
                Ok(StoredObject::Native(x))
            },
            other => Err(WireError::BadTag(other)),
        }
    }
}

// ── whole objects ───────────────────────────────────────────────────────────

/// The encoding of an object.
pub open spec fn object_bytes(o: ObjectView) -> Seq<u8> {
    <StoredObject as Wire>::bytes(o)
}

/// Whether every length in an object fits its `u32` prefix.
pub open spec fn object_fits(o: ObjectView) -> bool {
    <StoredObject as Wire>::fits(o)
}

/// How a fault of the shared encoding is reported for an object.
pub open spec fn object_fault(e: WireError) -> ObjectFault {
    match e {
        WireError::Truncated => ObjectFault::Truncated,
        WireError::InvalidUtf8 => ObjectFault::InvalidUtf8,
        WireError::BadTag(t) => ObjectFault::BadTag(t),
        WireError::BadObject(f) => f,
    }
}

/// The object that a byte string encodes, or why it encodes none.
pub open spec fn object_parse(s: Seq<u8>) -> Result<ObjectView, ObjectFault> {
    match <StoredObject as Wire>::parse(s) {
        Err(e) => Err(object_fault(e)),
        Ok((o, n)) => if n == s.len() {
            Ok(o)
        } else {
            Err(ObjectFault::TrailingBytes)
        },
    }
}

/// The hash of an object: the hash of its encoding.
pub open spec fn object_hash(o: ObjectView) -> Seq<u8> {
    blake3_hash(object_bytes(o))
}

/// An object reads back as it was written.
pub proof fn object_reads_back(o: ObjectView)
    requires
        object_fits(o),
    ensures
        object_parse(object_bytes(o)) == Ok::<ObjectView, ObjectFault>(o),
{
    <StoredObject as Wire>::reads_back(o, seq![]);
    assert(object_bytes(o) + seq![] =~= object_bytes(o));
}

/// What reads back as an object is that object's encoding, to the byte. So an
/// object found under the hash of its bytes is found under its own hash.
pub proof fn object_reads_only_encodings(s: Seq<u8>)
    ensures
        object_parse(s) matches Ok(o) ==> object_bytes(o) == s && object_fits(o) && object_hash(o)
            == blake3_hash(s),
{
    <StoredObject as Wire>::reads_only_encodings(s);
    if let Ok((o, n)) = <StoredObject as Wire>::parse(s) {
        if n == s.len() {
            assert(s.take(n) =~= s);
        }
    }
}

/// The hash that a member of a group of several has, by its position.
pub open spec fn derived_hash(group: Seq<u8>, index: u32) -> Seq<u8> {
    blake3_hash(group + u32_bytes(index))
}

/// Which hash a member of a group has: the only member of a group has the
/// group's own hash, a member of a larger group one derived from the group's
/// hash and its position.
pub open spec fn member_hash_of(group: Seq<u8>, index: u32, count: u32) -> Seq<u8> {
    if count == 1 {
        group
    } else {
        derived_hash(group, index)
    }
}

/// The hash of a member of a group.
pub fn member_hash(group: &Digest, index: u32, count: u32) -> (r: Digest)
    ensures
        r@ == member_hash_of(group@, index, count),
{
    if count == 1 {
        *group
    } else {
        let mut bytes: Vec<u8> = Vec::new();
        group.put(&mut bytes);
        index.put(&mut bytes);
        assert(bytes@ =~= group@ + u32_bytes(index));
        Digest::of(bytes.as_slice())
    }
}

impl StoredObject {
    /// The canonical encoding.
    pub fn encode(&self) -> (r: Vec<u8>)
        ensures
            r@ == object_bytes(self.content()),
    {
        let mut out: Vec<u8> = Vec::new();
        self.put(&mut out);
        assert(out@ =~= object_bytes(self.content()));
        out
    }

    /// Read the canonical encoding.
    pub fn decode(bytes: &[u8]) -> (r: Result<StoredObject, ObjectFault>)
        ensures
            match object_parse(bytes@) {
                Ok(o) => r is Ok && r->Ok_0.content() == o,
                Err(e) => r matches Err(f) && f == e,
            },
    {
        let mut r = Reader::new(bytes);
        proof {
            <StoredObject as Wire>::reads_only_encodings(bytes@);
        }
        match <StoredObject as Wire>::get(&mut r) {
            Err(WireError::Truncated) => Err(ObjectFault::Truncated),
            Err(WireError::InvalidUtf8) => Err(ObjectFault::InvalidUtf8),
            Err(WireError::BadTag(t)) => Err(ObjectFault::BadTag(t)),
            Err(WireError::BadObject(f)) => Err(f),
            Ok(o) => {
                if r.remaining() != 0 {
                    Err(ObjectFault::TrailingBytes)
                } else {
                    Ok(o)
                }
            },
        }
    }

    /// The hash of the canonical encoding.
    pub fn hash(&self) -> (r: Digest)
        ensures
            r@ == object_hash(self.content()),
    {
        let bytes = self.encode();
        Digest::of(bytes.as_slice())
    }
}

// ── from compiled functions to objects ──────────────────────────────────────

/// How a reference is stored: as the substitution says, or else by its hash.
pub open spec fn resolved(subst: Map<Seq<u8>, RefView>, h: Seq<u8>) -> RefView {
    if subst.contains_key(h) {
        subst[h]
    } else {
        RefView::External(h)
    }
}

/// How a constant is stored; `None` for a value that no object can hold.
pub open spec fn stored_constant(
    c: ConstantView,
    subst: Map<Seq<u8>, RefView>,
) -> Option<ObjectConstantView> {
    match c {
        ConstantView::Unit => Some(ObjectConstantView::Unit),
        ConstantView::Bool(b) => Some(ObjectConstantView::Bool(b)),
        ConstantView::Number(n) => Some(ObjectConstantView::Number(n)),
        ConstantView::String(s) => Some(ObjectConstantView::String(s)),
        ConstantView::Function(h) => Some(ObjectConstantView::Ref(resolved(subst, h))),
        ConstantView::Object(h) => Some(ObjectConstantView::ValueRef(h)),
        ConstantView::Method(m) => Some(
            ObjectConstantView::Method(
                ObjectMethodView {
                    ability_id: m.ability_id,
                    ability_uuid: m.ability_uuid,
                    signature: m.signature,
                    impl_fn: match m.impl_fn {
                        Some(h) => Some(resolved(subst, h)),
                        None => None,
                    },
                    never: m.never,
                },
            ),
        ),
        ConstantView::Runtime => None,
    }
}

/// Whether an object can hold every constant of a function.
pub open spec fn storable(f: FunctionView) -> bool {
    forall|i: int| 0 <= i < f.constants.len() ==> (#[trigger] f.constants[i]) != ConstantView::Runtime
}

/// How a function is stored.
pub open spec fn stored_function(
    f: FunctionView,
    subst: Map<Seq<u8>, RefView>,
) -> ObjectFunctionView {
    ObjectFunctionView {
        bytecode: f.bytecode,
        constants: Seq::new(
            f.constants.len(),
            |i: int| stored_constant(f.constants[i], subst)->0,
        ),
        local_count: f.local_count,
        param_count: f.param_count,
        dependencies: Seq::new(
            f.dependencies.len(),
            |i: int| resolved(subst, f.dependencies[i]),
        ),
    }
}

/// The contents of a substitution.
pub open spec fn subst_view(subst: Map<Seq<u8>, ObjectRef>) -> Map<Seq<u8>, RefView> {
    subst.map_values(|r: ObjectRef| r.content())
}

/// How a reference is stored.
pub fn resolve_ref(subst: &crate::ordmap::OrdMap<Digest, ObjectRef>, h: &Digest) -> (r: ObjectRef)
    ensures
        r.content() == resolved(subst_view(subst@), h@),
{
    match subst.get(h) {
        Some(r) => *r,
        None => ObjectRef::External(*h),
    }
}

/// The stored form of a function, its references stored as the substitution
/// says.
pub fn function_from_compiled(
    func: &CompiledFunction,
    subst: &crate::ordmap::OrdMap<Digest, ObjectRef>,
) -> (r: Result<ObjectFunction, ObjectFault>)
    ensures
        r is Ok <==> storable(func@),
        r matches Ok(f) ==> f.content() == stored_function(func@, subst_view(subst@)),
        r matches Err(e) ==> e == ObjectFault::UnsupportedConstant,
{
    let ghost map = subst_view(subst@);
    let mut constants: Vec<ObjectConstant> = Vec::new();
    let mut i: usize = 0;
    while i < func.constants.len()
        invariant
            i <= func.constants@.len(),
            map == subst_view(subst@),
            constants@.len() == i,
            forall|j: int|
                0 <= j < i ==> (#[trigger] func@.constants[j]) != ConstantView::Runtime
                    && stored_constant(func@.constants[j], map) == Some(constants@[j].content()),
        decreases func.constants@.len() - i,
    {
        assert(func@.constants[i as int] == func.constants@[i as int]@);
        let c = match &func.constants[i] {
            Constant::Unit => ObjectConstant::Unit,
            Constant::Bool(b) => ObjectConstant::Bool(*b),
            Constant::Number(n) => ObjectConstant::Number(*n),
            Constant::String(s) => ObjectConstant::String(owned(s.as_str())),
            Constant::Function(h) => ObjectConstant::Ref(resolve_ref(subst, h)),
            Constant::Object(h) => ObjectConstant::ValueRef(*h),
            Constant::Method(m) => {
                let impl_fn = match &m.impl_fn {
                    Some(h) => Some(resolve_ref(subst, h)),
                    None => None,
                };
                ObjectConstant::Method(
                    ObjectMethod {
                        ability_id: m.ability_id,
                        ability_uuid: m.ability_uuid,
                        signature: m.signature,
                        impl_fn,
                        never: m.never,
                    },
                )
            },
            Constant::Runtime => {
                return Err(ObjectFault::UnsupportedConstant);
            },
        };
        constants.push(c);
        i = i + 1;
    }
    let mut dependencies: Vec<ObjectRef> = Vec::new();
    let mut k: usize = 0;
    while k < func.dependencies.len()
        invariant
            k <= func.dependencies@.len(),
            map == subst_view(subst@),
            dependencies@.len() == k,
            forall|j: int|
                0 <= j < k ==> (#[trigger] dependencies@[j]).content() == resolved(
                    map,
                    func@.dependencies[j],
                ),
        decreases func.dependencies@.len() - k,
    {
        dependencies.push(resolve_ref(subst, &func.dependencies[k]));
        k = k + 1;
    }
    let r = ObjectFunction {
        bytecode: crate::wire::copy_bytes(&func.bytecode),
        constants,
        local_count: func.local_count,
        param_count: func.param_count,
        dependencies,
    };
    proof {
        let want = stored_function(func@, map);
        lemma_bytes_content(r.bytecode@);
        assert(r.content().bytecode =~= want.bytecode);
        assert(r.content().constants =~= want.constants);
        assert(r.content().dependencies =~= want.dependencies);
    }
    Ok(r)
}

/// Bytes are their own content.
proof fn lemma_bytes_content(s: Seq<u8>)
    ensures
        contents(s) == s,
{
    assert(contents(s) =~= s);
}

// ── from objects to compiled functions ──────────────────────────────────────

/// What a reference stands for, given the hashes of the members of its group.
pub open spec fn loaded_ref(r: RefView, siblings: Seq<Seq<u8>>) -> Result<Seq<u8>, ObjectFault> {
    match r {
        RefView::External(h) => Ok(h),
        RefView::Internal(i) => if i < siblings.len() {
            Ok(siblings[i as int])
        } else {
            Err(ObjectFault::BadInternalRef(i))
        },
    }
}

/// What a stored constant stands for.
pub open spec fn loaded_constant(
    c: ObjectConstantView,
    siblings: Seq<Seq<u8>>,
) -> Result<ConstantView, ObjectFault> {
    match c {
        ObjectConstantView::Unit => Ok(ConstantView::Unit),
        ObjectConstantView::Bool(b) => Ok(ConstantView::Bool(b)),
        ObjectConstantView::Number(n) => Ok(ConstantView::Number(n)),
        ObjectConstantView::String(s) => Ok(ConstantView::String(s)),
        ObjectConstantView::Ref(r) => match loaded_ref(r, siblings) {
            Ok(h) => Ok(ConstantView::Function(h)),
            Err(e) => Err(e),
        },
        ObjectConstantView::ValueRef(h) => Ok(ConstantView::Object(h)),
        ObjectConstantView::Method(m) => match m.impl_fn {
            None => Ok(
                ConstantView::Method(
                    MethodView {
                        ability_id: m.ability_id,
                        ability_uuid: m.ability_uuid,
                        signature: m.signature,
                        impl_fn: None,
                        never: m.never,
                    },
                ),
            ),
            Some(r) => match loaded_ref(r, siblings) {
                Ok(h) => Ok(
                    ConstantView::Method(
                        MethodView {
                            ability_id: m.ability_id,
                            ability_uuid: m.ability_uuid,
                            signature: m.signature,
                            impl_fn: Some(h),
                            never: m.never,
                        },
                    ),
                ),
                Err(e) => Err(e),
            },
        },
    }
}

/// What stored constants stand for, or the first fault among them.
pub open spec fn loaded_constants(
    cs: Seq<ObjectConstantView>,
    siblings: Seq<Seq<u8>>,
) -> Result<Seq<ConstantView>, ObjectFault>
    decreases cs.len(),
{
    if cs.len() == 0 {
        Ok(seq![])
    } else {
        match loaded_constants(cs.drop_last(), siblings) {
            Err(e) => Err(e),
            Ok(done) => match loaded_constant(cs.last(), siblings) {
                Err(e) => Err(e),
                Ok(c) => Ok(done.push(c)),
            },
        }
    }
}

/// What references stand for, or the first fault among them.
pub open spec fn loaded_refs(
    rs: Seq<RefView>,
    siblings: Seq<Seq<u8>>,
) -> Result<Seq<Seq<u8>>, ObjectFault>
    decreases rs.len(),
{
    if rs.len() == 0 {
        Ok(seq![])
    } else {
        match loaded_refs(rs.drop_last(), siblings) {
            Err(e) => Err(e),
            Ok(done) => match loaded_ref(rs.last(), siblings) {
                Err(e) => Err(e),
                Ok(h) => Ok(done.push(h)),
            },
        }
    }
}

/// What a stored function stands for under a hash.
pub open spec fn loaded_function(
    f: ObjectFunctionView,
    hash: Seq<u8>,
    siblings: Seq<Seq<u8>>,
) -> Result<FunctionView, ObjectFault> {
    match loaded_constants(f.constants, siblings) {
        Err(e) => Err(e),
        Ok(constants) => match loaded_refs(f.dependencies, siblings) {
            Err(e) => Err(e),
            Ok(dependencies) => Ok(
                FunctionView {
                    hash,
                    bytecode: f.bytecode,
                    constants,
                    local_count: f.local_count,
                    param_count: f.param_count,
                    dependencies,
                    debug: None,
                },
            ),
        },
    }
}

proof fn lemma_constants_fault_stays(cs: Seq<ObjectConstantView>, siblings: Seq<Seq<u8>>, k: int)
    requires
        0 <= k <= cs.len(),
        loaded_constants(cs.take(k), siblings) is Err,
    ensures
        loaded_constants(cs, siblings) == loaded_constants(cs.take(k), siblings),
    decreases cs.len() - k,
{
    if k < cs.len() {
        assert(cs.take(k + 1).drop_last() =~= cs.take(k));
        lemma_constants_fault_stays(cs, siblings, k + 1);
    } else {
        assert(cs.take(k) =~= cs);
    }
}

proof fn lemma_refs_fault_stays(rs: Seq<RefView>, siblings: Seq<Seq<u8>>, k: int)
    requires
        0 <= k <= rs.len(),
        loaded_refs(rs.take(k), siblings) is Err,
    ensures
        loaded_refs(rs, siblings) == loaded_refs(rs.take(k), siblings),
    decreases rs.len() - k,
{
    if k < rs.len() {
        assert(rs.take(k + 1).drop_last() =~= rs.take(k));
        lemma_refs_fault_stays(rs, siblings, k + 1);
    } else {
        assert(rs.take(k) =~= rs);
    }
}

/// What a reference stands for.
fn load_ref(r: &ObjectRef, siblings: &Vec<Digest>) -> (res: Result<Digest, ObjectFault>)
    ensures
        match loaded_ref(r.content(), digest_views(siblings@)) {
            Ok(h) => res is Ok && res->Ok_0@ == h,
            Err(e) => res matches Err(f) && f == e,
        },
{
    match r {
        ObjectRef::External(h) => Ok(*h),
        ObjectRef::Internal(i) => {
            if (*i as usize) < siblings.len() {
                Ok(siblings[*i as usize])
            } else {
                Err(ObjectFault::BadInternalRef(*i))
            }
        },
    }
}

/// What a stored constant stands for.
fn load_constant(c: &ObjectConstant, siblings: &Vec<Digest>) -> (res: Result<Constant, ObjectFault>)
    ensures
        match loaded_constant(c.content(), digest_views(siblings@)) {
            Ok(v) => res is Ok && res->Ok_0@ == v,
            Err(e) => res matches Err(f) && f == e,
        },
{
    match c {
        ObjectConstant::Unit => Ok(Constant::Unit),
        ObjectConstant::Bool(b) => Ok(Constant::Bool(*b)),
        ObjectConstant::Number(n) => Ok(Constant::Number(*n)),
        ObjectConstant::String(s) => Ok(Constant::String(owned(s.as_str()))),
        ObjectConstant::Ref(r) => {
            let h = load_ref(r, siblings)?;
            Ok(Constant::Function(h))
        },
        ObjectConstant::ValueRef(h) => Ok(Constant::Object(*h)),
        ObjectConstant::Method(m) => {
            let impl_fn = match &m.impl_fn {
                None => None,
                Some(r) => {
                    let h = load_ref(r, siblings)?;
                    Some(h)
                },
            };
            Ok(
                Constant::Method(
                    AbilityMethodRef {
                        ability_id: m.ability_id,
                        ability_uuid: m.ability_uuid,
                        signature: m.signature,
                        impl_fn,
                        never: m.never,
                    },
                ),
            )
        },
    }
}

/// The function that a stored function stands for under a hash, given the
/// hashes of the members of its group.
pub fn load_function(func: &ObjectFunction, hash: Digest, siblings: &Vec<Digest>) -> (res: Result<
    CompiledFunction,
    ObjectFault,
>)
    ensures
        match loaded_function(func.content(), hash@, digest_views(siblings@)) {
            Ok(v) => res is Ok && res->Ok_0@ == v,
            Err(e) => res matches Err(f) && f == e,
        },
{
    let ghost sibs = digest_views(siblings@);
    let ghost cs = contents(func.constants@);
    let ghost rs = contents(func.dependencies@);
    let mut constants: Vec<Constant> = Vec::new();
    let mut i: usize = 0;
    proof {
        assert(cs.take(0) =~= seq![]);
        assert(constant_views(constants@) =~= seq![]);
        lemma_bytes_content(func.bytecode@);
    }
    while i < func.constants.len()
        invariant
            i <= func.constants@.len(),
            sibs == digest_views(siblings@),
            cs == contents(func.constants@),
            func.content().constants == cs,
            loaded_constants(cs.take(i as int), sibs) == Ok::<Seq<ConstantView>, ObjectFault>(
                constant_views(constants@),
            ),
        decreases func.constants@.len() - i,
    {
        proof {
            assert(cs.take(i + 1).drop_last() =~= cs.take(i as int));
            assert(cs.take(i + 1).last() == func.constants@[i as int].content());
            if loaded_constants(cs.take(i + 1), sibs) is Err {
                lemma_constants_fault_stays(cs, sibs, i + 1);
            }
        }
        let ghost before = constant_views(constants@);
        match load_constant(&func.constants[i], siblings) {
            Err(e) => {
                return Err(e);
            },
            Ok(c) => {
                constants.push(c);
                assert(constant_views(constants@) =~= before.push(c@));
            },
        }
        i = i + 1;
    }
    assert(cs.take(cs.len() as int) =~= cs);
    let mut dependencies: Vec<Digest> = Vec::new();
    let mut k: usize = 0;
    assert(rs.take(0) =~= seq![]);
    assert(digest_views(dependencies@) =~= seq![]);
    while k < func.dependencies.len()
        invariant
            k <= func.dependencies@.len(),
            sibs == digest_views(siblings@),
            rs == contents(func.dependencies@),
            func.content().dependencies == rs,
            loaded_constants(func.content().constants, sibs) is Ok,
            loaded_refs(rs.take(k as int), sibs) == Ok::<Seq<Seq<u8>>, ObjectFault>(
                digest_views(dependencies@),
            ),
        decreases func.dependencies@.len() - k,
    {
        proof {
            assert(rs.take(k + 1).drop_last() =~= rs.take(k as int));
            assert(rs.take(k + 1).last() == func.dependencies@[k as int].content());
            if loaded_refs(rs.take(k + 1), sibs) is Err {
                lemma_refs_fault_stays(rs, sibs, k + 1);
            }
        }
        let ghost before = digest_views(dependencies@);
        match load_ref(&func.dependencies[k], siblings) {
            Err(e) => {
                return Err(e);
            },
            Ok(h) => {
                dependencies.push(h);
                assert(digest_views(dependencies@) =~= before.push(h@));
            },
        }
        k = k + 1;
    }
    assert(rs.take(rs.len() as int) =~= rs);
    Ok(
        CompiledFunction {
            hash,
            bytecode: crate::wire::copy_bytes(&func.bytecode),
            constants,
            local_count: func.local_count,
            param_count: func.param_count,
            dependencies,
            debug_info: None,
        },
    )
}

/// A function whose references are all stored by their hashes loads back as it
/// was, without its debug information.
pub proof fn plain_function_loads_back(f: FunctionView)
    requires
        storable(f),
    ensures
        loaded_function(stored_function(f, Map::empty()), f.hash, seq![]) == Ok::<
            FunctionView,
            ObjectFault,
        >(FunctionView { debug: None, ..f }),
{
    let none: Map<Seq<u8>, RefView> = Map::empty();
    let g = stored_function(f, none);
    lemma_constants_load_back(f, f.constants.len() as int);
    lemma_refs_load_back(f, f.dependencies.len() as int);
    assert(g.constants.take(f.constants.len() as int) =~= g.constants);
    assert(f.constants.take(f.constants.len() as int) =~= f.constants);
    assert(g.dependencies.take(f.dependencies.len() as int) =~= g.dependencies);
    assert(f.dependencies.take(f.dependencies.len() as int) =~= f.dependencies);
}

proof fn lemma_constants_load_back(f: FunctionView, k: int)
    requires
        storable(f),
        0 <= k <= f.constants.len(),
    ensures
        loaded_constants(stored_function(f, Map::empty()).constants.take(k), seq![]) == Ok::<
            Seq<ConstantView>,
            ObjectFault,
        >(f.constants.take(k)),
    decreases k,
{
    let g = stored_function(f, Map::empty());
    if k == 0 {
        assert(g.constants.take(0) =~= seq![]);
        assert(f.constants.take(0) =~= seq![]);
    } else {
        lemma_constants_load_back(f, k - 1);
        assert(g.constants.take(k).drop_last() =~= g.constants.take(k - 1));
        assert(f.constants[k - 1] != ConstantView::Runtime);
        assert(f.constants.take(k) =~= f.constants.take(k - 1).push(f.constants[k - 1]));
    }
}

proof fn lemma_refs_load_back(f: FunctionView, k: int)
    requires
        0 <= k <= f.dependencies.len(),
    ensures
        loaded_refs(stored_function(f, Map::empty()).dependencies.take(k), seq![]) == Ok::<
            Seq<Seq<u8>>,
            ObjectFault,
        >(f.dependencies.take(k)),
    decreases k,
{
    let g = stored_function(f, Map::empty());
    if k == 0 {
        assert(g.dependencies.take(0) =~= seq![]);
        assert(f.dependencies.take(0) =~= seq![]);
    } else {
        lemma_refs_load_back(f, k - 1);
        assert(g.dependencies.take(k).drop_last() =~= g.dependencies.take(k - 1));
        assert(f.dependencies.take(k) =~= f.dependencies.take(k - 1).push(f.dependencies[k - 1]));
    }
}

// ── materializing ───────────────────────────────────────────────────────────

/// The hashes of the members of a group.
pub open spec fn sibling_hashes(group: Seq<u8>, count: nat) -> Seq<Seq<u8>> {
    Seq::new(count, |i: int| member_hash_of(group, i as u32, count as u32))
}

/// The functions of the first `k` members of a group, or the first fault.
pub open spec fn loaded_members(ms: Seq<MemberView>, siblings: Seq<Seq<u8>>, k: int) -> Result<
    Seq<(Seq<u8>, FunctionView)>,
    ObjectFault,
>
    decreases k,
{
    if k <= 0 {
        Ok(seq![])
    } else {
        match loaded_members(ms, siblings, k - 1) {
            Err(e) => Err(e),
            Ok(done) => match loaded_function(ms[k - 1].function, siblings[k - 1], siblings) {
                Err(e) => Err(e),
                Ok(f) => Ok(done.push((siblings[k - 1], f))),
            },
        }
    }
}

/// The functions that an object holds, each under its hash; leaves hold none.
pub open spec fn materialized(o: ObjectView) -> Result<Seq<(Seq<u8>, FunctionView)>, ObjectFault> {
    match o {
        ObjectView::Plain(f) => match loaded_function(f, object_hash(o), seq![]) {
            Err(e) => Err(e),
            Ok(g) => Ok(seq![(object_hash(o), g)]),
        },
        ObjectView::Group(ms) => loaded_members(
            ms,
            sibling_hashes(object_hash(o), ms.len()),
            ms.len() as int,
        ),
        _ => Ok(seq![]),
    }
}

/// The hashes of some functions, with what each function says.
pub open spec fn function_pairs(s: Seq<(Digest, CompiledFunction)>) -> Seq<
    (Seq<u8>, FunctionView),
> {
    Seq::new(s.len(), |i: int| (s[i].0@, s[i].1@))
}

proof fn lemma_members_fault_stays(ms: Seq<MemberView>, siblings: Seq<Seq<u8>>, k: int, n: int)
    requires
        0 <= k <= n,
        loaded_members(ms, siblings, k) is Err,
    ensures
        loaded_members(ms, siblings, n) == loaded_members(ms, siblings, k),
    decreases n - k,
{
    if k < n {
        lemma_members_fault_stays(ms, siblings, k + 1, n);
    }
}

impl StoredObject {
    /// The functions that the object holds, each under its hash. A group's
    /// internal references become the hashes of its members.
    pub fn materialize(&self) -> (r: Result<Vec<(Digest, CompiledFunction)>, ObjectFault>)
        ensures
            match materialized(self.content()) {
                Ok(fs) => r is Ok && function_pairs(r->Ok_0@) == fs,
                Err(e) => r matches Err(f) && f == e,
            },
    {
        match self {
            StoredObject::Plain(func) => {
                let hash = self.hash();
                let none: Vec<Digest> = Vec::new();
                assert(digest_views(none@) =~= seq![]);
                match load_function(func, hash, &none) {
                    Err(e) => Err(e),
                    Ok(f) => {
                        let mut out: Vec<(Digest, CompiledFunction)> = Vec::new();
                        out.push((hash, f));
                        assert(function_pairs(out@) =~= seq![(hash@, f@)]);
                        Ok(out)
                    },
                }
            },
            StoredObject::Group(members) => {
                let group = self.hash();
                let ghost ms = contents(members@);
                let ghost sibs = sibling_hashes(group@, ms.len());
                let count: u32 = members.len() as u32;
                let mut siblings: Vec<Digest> = Vec::new();
                let mut i: usize = 0;
                assert(digest_views(siblings@) =~= sibs.take(0));
                while i < members.len()
                    invariant
                        i <= members@.len(),
                        ms == contents(members@),
                        sibs == sibling_hashes(group@, ms.len()),
                        count == members@.len() as u32,
                        digest_views(siblings@) == sibs.take(i as int),
                    decreases members@.len() - i,
                {
                    let ghost before = digest_views(siblings@);
                    let h = member_hash(&group, i as u32, count);
                    siblings.push(h);
                    proof {
                        assert(h@ == sibs[i as int]);
                        assert(digest_views(siblings@) =~= before.push(h@));
                        assert(sibs.take(i + 1) =~= sibs.take(i as int).push(sibs[i as int]));
                    }
                    i = i + 1;
                }
                assert(digest_views(siblings@) =~= sibs);
                let mut out: Vec<(Digest, CompiledFunction)> = Vec::new();
                let mut k: usize = 0;
                assert(function_pairs(out@) =~= seq![]);
                while k < members.len()
                    invariant
                        k <= members@.len(),
                        siblings@.len() == members@.len(),
                        ms == contents(members@),
                        self.content() == ObjectView::Group(ms),
                        group@ == object_hash(self.content()),
                        sibs == sibling_hashes(group@, ms.len()),
                        digest_views(siblings@) == sibs,
                        loaded_members(ms, sibs, k as int) == Ok::<
                            Seq<(Seq<u8>, FunctionView)>,
                            ObjectFault,
                        >(function_pairs(out@)),
                    decreases members@.len() - k,
                {
                    let ghost before = function_pairs(out@);
                    assert(ms[k as int] == members@[k as int].content());
                    assert(sibs[k as int] == siblings@[k as int]@);
                    proof {
                        if loaded_members(ms, sibs, k + 1) is Err {
                            lemma_members_fault_stays(ms, sibs, k + 1, ms.len() as int);
                        }
                    }
                    match load_function(&members[k].function, siblings[k], &siblings) {
                        Err(e) => {
                            return Err(e);
                        },
                        Ok(f) => {
                            out.push((siblings[k], f));
                            assert(function_pairs(out@) =~= before.push((sibs[k as int], f@)));
                        },
                    }
                    k = k + 1;
                }
                Ok(out)
            },
            _ => {
                let out: Vec<(Digest, CompiledFunction)> = Vec::new();
                assert(function_pairs(out@) =~= seq![]);
                Ok(out)
            },
        }
    }

    /// A copy of the object.
    pub fn copy(&self) -> (r: StoredObject)
        ensures
            r.content() == self.content(),
    {
        match self {
            StoredObject::Plain(f) => StoredObject::Plain(f.copy()),
            StoredObject::Group(ms) => {
                let mut out: Vec<GroupMember> = Vec::new();
                let mut i: usize = 0;
                while i < ms.len()
                    invariant
                        i <= ms@.len(),
                        out@.len() == i,
                        forall|j: int| 0 <= j < i ==> (#[trigger] out@[j]).content() == ms@[j].content(),
                    decreases ms@.len() - i,
                {
                    let name = match &ms[i].name {
                        Some(n) => Some(owned(n.as_str())),
                        None => None,
                    };
                    out.push(GroupMember { name, function: ms[i].function.copy() });
                    i = i + 1;
                }
                assert(contents(out@) =~= contents(ms@));
                StoredObject::Group(out)
            },
            StoredObject::Redirect(t) => StoredObject::Redirect(*t),
            StoredObject::Value(v) => StoredObject::Value(
                match v {
                    StoredValue::Unit => StoredValue::Unit,
                    StoredValue::Bool(b) => StoredValue::Bool(*b),
                    StoredValue::Number(n) => StoredValue::Number(*n),
                    StoredValue::String(s) => StoredValue::String(owned(s.as_str())),
                },
            ),
            StoredObject::Native(n) => StoredObject::Native(*n),
        }
    }
}

impl ObjectFunction {
    /// A copy of the function.
    pub fn copy(&self) -> (r: ObjectFunction)
        ensures
            r.content() == self.content(),
    {
        let mut constants: Vec<ObjectConstant> = Vec::new();
        let mut i: usize = 0;
        while i < self.constants.len()
            invariant
                i <= self.constants@.len(),
                constants@.len() == i,
                forall|j: int|
                    0 <= j < i ==> (#[trigger] constants@[j]).content()
                        == self.constants@[j].content(),
            decreases self.constants@.len() - i,
        {
            let c = match &self.constants[i] {
                ObjectConstant::Unit => ObjectConstant::Unit,
                ObjectConstant::Bool(b) => ObjectConstant::Bool(*b),
                ObjectConstant::Number(n) => ObjectConstant::Number(*n),
                ObjectConstant::String(s) => ObjectConstant::String(owned(s.as_str())),
                ObjectConstant::Ref(r) => ObjectConstant::Ref(*r),
                ObjectConstant::ValueRef(h) => ObjectConstant::ValueRef(*h),
                ObjectConstant::Method(m) => ObjectConstant::Method(*m),
            };
            constants.push(c);
            i = i + 1;
        }
        let mut dependencies: Vec<ObjectRef> = Vec::new();
        let mut k: usize = 0;
        while k < self.dependencies.len()
            invariant
                k <= self.dependencies@.len(),
                dependencies@.len() == k,
                forall|j: int|
                    0 <= j < k ==> (#[trigger] dependencies@[j]) == self.dependencies@[j],
            decreases self.dependencies@.len() - k,
        {
            dependencies.push(self.dependencies[k]);
            k = k + 1;
        }
        let r = ObjectFunction {
            bytecode: crate::wire::copy_bytes(&self.bytecode),
            constants,
            local_count: self.local_count,
            param_count: self.param_count,
            dependencies,
        };
        assert(r.content().constants =~= self.content().constants);
        assert(r.content().dependencies =~= self.content().dependencies);
        assert(r.content().bytecode =~= self.content().bytecode);
        r
    }
}

// ── constants ───────────────────────────────────────────────────────────────

/// The stored value of a constant; `None` for one that is not a primitive.
pub open spec fn stored_value(c: ConstantView) -> Option<StoredValueView> {
    match c {
        ConstantView::Unit => Some(StoredValueView::Unit),
        ConstantView::Bool(b) => Some(StoredValueView::Bool(b)),
        ConstantView::Number(n) => Some(StoredValueView::Number(n)),
        ConstantView::String(s) => Some(StoredValueView::String(s)),
        _ => None,
    }
}

/// The object of a constant's value.
pub fn value_object(value: &Constant) -> (r: Result<StoredObject, ObjectFault>)
    ensures
        match stored_value(value@) {
            Some(v) => r is Ok && r->Ok_0.content() == ObjectView::Value(v),
            None => r matches Err(e) && e == ObjectFault::UnsupportedConstant,
        },
{
    match value {
        Constant::Unit => Ok(StoredObject::Value(StoredValue::Unit)),
        Constant::Bool(b) => Ok(StoredObject::Value(StoredValue::Bool(*b))),
        Constant::Number(n) => Ok(StoredObject::Value(StoredValue::Number(*n))),
        Constant::String(s) => Ok(StoredObject::Value(StoredValue::String(owned(s.as_str())))),
        _ => Err(ObjectFault::UnsupportedConstant),
    }
}

impl ObjectFault {
    /// The text of the fault.
    pub open spec fn text(self) -> Seq<char> {
        match self {
            ObjectFault::Truncated => "object is truncated"@,
            ObjectFault::InvalidUtf8 => "invalid UTF-8 in object"@,
            ObjectFault::BadTag(t) => "unexpected tag "@ + decimal_text(t as nat) + " in object"@,
            ObjectFault::TrailingBytes => "trailing bytes after object"@,
            ObjectFault::UnsupportedConstant => "constant cannot be stored in an object"@,
            ObjectFault::BadInternalRef(i) => "reference to member "@ + decimal_text(i as nat)
                + " outside the group"@,
            ObjectFault::NotPlain => "expected a plain function"@,
        }
    }

    /// The text of the fault.
    pub fn message(&self) -> (r: String)
        ensures
            r@ == self.text(),
    {
        match self {
            ObjectFault::Truncated => owned("object is truncated"),
            ObjectFault::InvalidUtf8 => owned("invalid UTF-8 in object"),
            ObjectFault::BadTag(t) => {
                let mut out = owned("unexpected tag ");
                push_decimal(&mut out, *t as u64);
                push_text(&mut out, " in object");
                out
            },
            ObjectFault::TrailingBytes => owned("trailing bytes after object"),
            ObjectFault::UnsupportedConstant => owned("constant cannot be stored in an object"),
            ObjectFault::BadInternalRef(i) => {
                let mut out = owned("reference to member ");
                push_decimal(&mut out, *i as u64);
                push_text(&mut out, " outside the group");
                out
            },
            ObjectFault::NotPlain => owned("expected a plain function"),
        }
    }
}

} // verus!
