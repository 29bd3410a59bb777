//! What can be called: the native clock, functions and classes.

use vstd::prelude::*;
use crate::ast::StmtFunction;
use super::native_fun::clock::Clock;

verus! {

/// Whether a callable is a class or a function.
#[derive(Debug, PartialEq, Eq, Structural, Clone, Copy)]
pub enum CallType {
    Class,
    Function,
}

/// A callable value: the native clock, or a function or a class held by its
/// place in the interpreter's store.
#[derive(Debug, PartialEq, Eq, Structural, Clone, Copy)]
pub enum Callable {
    Native(Clock),
    Function(usize),
    Class(usize),
}

impl Callable {
    /// Whether the callable is a class or a function.
    pub fn call_type(&self) -> (kind: CallType)
        ensures
            kind == if self is Class {
                CallType::Class
            } else {
                CallType::Function
            },
    {
        match self {
            Callable::Class(_) => CallType::Class,
            _ => CallType::Function,
        }
    }
}

/// A function of the program: its declaration, the environment it was
/// declared in, and whether it is the initializer of a class.
#[derive(Debug, Clone, Copy)]
pub struct LoxFunction<'a> {
    pub declaration: &'a StmtFunction<'a>,
    pub closure: usize,
    pub is_initializer: bool,
}

impl<'a> LoxFunction<'a> {
    pub fn new(declaration: &'a StmtFunction<'a>, closure: usize, is_initializer: bool) -> (function:
        Self)
        ensures
            function == (LoxFunction { declaration, closure, is_initializer }),
    {
        Self { declaration, closure, is_initializer }
    }

    /// The number of parameters.
    pub fn arity(&self) -> (count: usize)
        ensures
            count == self.declaration.params@.len(),
    {
        self.declaration.params.len()
    }

    /// The same function with `closure` as the environment of its body.
    pub fn bind(&self, closure: usize) -> (bound: Self)
        ensures
            bound == (LoxFunction {
                declaration: self.declaration,
                closure,
                is_initializer: self.is_initializer,
            }),
    {
        Self { declaration: self.declaration, closure, is_initializer: self.is_initializer }
    }
}

} // verus!
