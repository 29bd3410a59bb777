//! Functions that the interpreter provides.

pub mod clock;
