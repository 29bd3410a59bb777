//! The native function `clock`.

use vstd::prelude::*;
use vstd::string::*;

verus! {

/// The native function `clock`: it takes no argument and gives the seconds
/// since the Unix epoch, which the host reads.
#[derive(Debug, Default, PartialEq, Eq, Structural, Clone, Copy)]
pub struct Clock {
    pub arity: usize,
}

impl Clock {
    pub fn new() -> (clock: Self)
        ensures
            clock == (Clock { arity: 0 }),
    {
        Self { arity: 0 }
    }

    /// The number of arguments that a call takes.
    pub open spec fn arity_spec(&self) -> usize {
        self.arity
    }

    /// The number of arguments that a call takes.
    #[verifier::when_used_as_spec(arity_spec)]
    pub fn arity(&self) -> (count: usize)
        ensures
            count == self.arity_spec(),
    {
        self.arity
    }

    /// How the function prints.
    pub fn to_string(&self) -> (text: String)
        ensures
            text@ == "<native fun: clock>"@,
    {
        String::from_str("<native fun: clock>")
    }
}

} // verus!
