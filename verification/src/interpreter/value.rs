//! Runtime values.

use vstd::prelude::*;
use super::callable::Callable;

verus! {

/// A value of a running program. A number is the bit pattern of an IEEE-754
/// double; a string, a callable and an instance are held by their place in
/// the interpreter's store, so two values are the same object exactly where
/// they are equal.
#[derive(Debug, PartialEq, Eq, Structural, Clone, Copy)]
pub enum Value {
    Number(u64),
    String(usize),
    Boolean(bool),
    Callable(Callable),
    Instance(usize),
    Nil,
}

impl Value {
    /// `false` and `nil` are falsy; every other value is truthy.
    pub open spec fn truthy(&self) -> bool {
        match self {
            Value::Boolean(b) => *b,
            Value::Nil => false,
            _ => true,
        }
    }

    /// `false` and `nil` are falsy; every other value is truthy.
    #[verifier::when_used_as_spec(truthy)]
    pub fn is_truthy(&self) -> (truthy: bool)
        ensures
            truthy == self.truthy(),
    {
        match self {
            Value::Number(_) => true,
            Value::String(_) => true,
            Value::Boolean(b) => *b,
            Value::Callable(_) => true,
            Value::Nil => false,
            Value::Instance(_) => true,
        }
    }

    /// What `!` gives for the value: whether it is falsy.
    pub fn not(self) -> (negated: Value)
        ensures
            negated == Value::Boolean(!self.truthy()),
    {
        Value::Boolean(!self.is_truthy())
    }
}

impl Default for Value {
    fn default() -> (value: Self)
        ensures
            value == Value::Nil,
    {
        Value::Nil
    }
}

} // verus!
