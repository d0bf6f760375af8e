//! Dynamically typed component values.
//!
//! Each component kind stores values of one shape.  The store is a runtime
//! registry, so values carry their shape at runtime as a [`Kind`] tag.
//! Fractional values are carried as their raw bit pattern, so that the core
//! stays exact; a front end converts at the boundary.

use vstd::prelude::*;

verus! {

/// The shape of a component value.
#[derive(Clone, Copy, PartialEq, Eq, Structural, Debug)]
pub enum Kind {
    U32,
    U64,
    Bool,
    Text,
    /// A 32-bit fractional number, carried as its raw bit pattern.
    F32,
}

/// One component value.
#[derive(PartialEq, Debug)]
pub enum Value {
    U32(u32),
    U64(u64),
    Bool(bool),
    Text(String),
    /// The raw bit pattern of a 32-bit fractional number.
    F32Bits(u32),
}

impl Value {
    /// The shape of this value.
    pub open spec fn spec_kind(self) -> Kind {
        match self {
            Value::U32(_) => Kind::U32,
            Value::U64(_) => Kind::U64,
            Value::Bool(_) => Kind::Bool,
            Value::Text(_) => Kind::Text,
            Value::F32Bits(_) => Kind::F32,
        }
    }

    /// Returns the shape of this value.
    pub fn kind(&self) -> (k: Kind)
        ensures
            k == self.spec_kind(),
    {
        match self {
            Value::U32(_) => Kind::U32,
            Value::U64(_) => Kind::U64,
            Value::Bool(_) => Kind::Bool,
            Value::Text(_) => Kind::Text,
            Value::F32Bits(_) => Kind::F32,
        }
    }

    /// Returns a value equal to this one.
    pub fn dup(&self) -> (r: Value)
        ensures
            r == *self,
    {
        match self {
            Value::U32(x) => Value::U32(*x),
            Value::U64(x) => Value::U64(*x),
            Value::Bool(x) => Value::Bool(*x),
            Value::Text(s) => Value::Text(s.clone()),
            Value::F32Bits(x) => Value::F32Bits(*x),
        }
    }
}

/// A sample boolean component kind.
#[derive(PartialEq, Eq, Structural, Clone, Copy, Debug)]
pub struct Comp4(pub bool);

impl Comp4 {
    /// The dynamically typed value of this component.
    pub fn to_value(&self) -> (v: Value)
        ensures
            v == Value::Bool(self.0),
    {
        Value::Bool(self.0)
    }
}

} // verus!
