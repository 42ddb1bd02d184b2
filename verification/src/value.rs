//! Runtime values.

use vstd::prelude::*;

use crate::digest::Digest;

verus! {

/// A number: its IEEE-754 bits, and the decimal text it is shown as where that
/// is not a plain whole number. Floating point itself stays with the host.
#[derive(Debug, PartialEq, Eq)]
pub struct Number {
    /// The bits of the double-precision number.
    pub bits: u64,
    /// The shortest decimal text that stands for it.
    pub text: String,
}

/// A value of the running program.
#[derive(Debug)]
pub enum Value {
    /// The unit value.
    Unit,
    /// A boolean.
    Bool(bool),
    /// A number.
    Number(Number),
    /// Text.
    String(String),
    /// A tuple.
    Tuple(Vec<Value>),
    /// A record: field names and their values.
    Record(Vec<(String, Value)>),
    /// A reference to a function.
    FunctionRef(Digest),
    /// A performed ability that waits for a handler.
    SuspendedAbility(SuspendedAbility),
    /// A captured continuation.
    Continuation,
    /// A function with captured values.
    Closure(Closure),
    /// An ability handler.
    Handler(HandlerValue),
    /// A list.
    List(Vec<Value>),
    /// A map: keys and their values.
    MapValue(Vec<(String, Value)>),
    /// A set.
    SetValue(Vec<Value>),
    /// A variant of an enum.
    Enum(EnumValue),
}

/// A performed ability that waits for a handler.
#[derive(Debug)]
pub struct SuspendedAbility {
    /// The ability.
    pub ability_id: u64,
    /// The method.
    pub method_id: u64,
    /// The arguments.
    pub args: Vec<Value>,
}

/// A function with captured values.
#[derive(Debug)]
pub struct Closure {
    /// The function.
    pub function_hash: Digest,
    /// The captured values.
    pub environment: Vec<Value>,
}

/// An ability handler.
#[derive(Debug)]
pub struct HandlerValue {
    /// The ability.
    pub ability_id: u64,
    /// The functions of the arms.
    pub methods: Vec<Digest>,
}

/// A variant of an enum.
#[derive(Debug)]
pub struct EnumValue {
    /// The enum.
    pub enum_name: String,
    /// The variant.
    pub variant_name: String,
    /// The payload, if the variant has one.
    pub payload: Option<Box<Value>>,
}

impl Value {
    /// A list of values.
    pub fn list(values: Vec<Value>) -> (r: Value)
        ensures
            r == Value::List(values),
    {
        Value::List(values)
    }

    /// A tuple of values.
    pub fn tuple(values: Vec<Value>) -> (r: Value)
        ensures
            r == Value::Tuple(values),
    {
        Value::Tuple(values)
    }
}

} // verus!
