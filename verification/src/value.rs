//! The structured values the store holds: a JSON-like model with null,
//! booleans, integers, strings, sequences and string-keyed mappings.

use vstd::prelude::*;

verus! {

/// A stored value. Numbers are signed 64-bit integers, which is what the
/// increment operation works on.
pub enum Value {
    Null,
    Bool(bool),
    Int(i64),
    Str(String),
    Arr(Vec<Value>),
    Obj(Vec<(String, Value)>),
}

impl Value {
    /// The integer held by the value, where it is one.
    pub open spec fn spec_as_int(self) -> Option<i64> {
        match self {
            Value::Int(n) => Some(n),
            _ => None,
        }
    }

    /// Returns the integer this value holds, or `None` for every other variant.
    pub fn as_int(&self) -> (r: Option<i64>)
        ensures
            r == self.spec_as_int(),
    {
        match self {
            Value::Int(n) => Some(*n),
            _ => None,
        }
    }
}

} // verus!
