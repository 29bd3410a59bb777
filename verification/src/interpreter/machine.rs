//! The parts of the evaluation machine: the work it has still to do, what it
//! asks of the host, and what the host answers.

use vstd::prelude::*;
use crate::ast::{
    Expr, ExprAssign, ExprBinary, ExprCall, ExprGet, ExprLogical, ExprSet, ExprUnary, Stmt,
    StmtClass, StmtIf, StmtReturn, StmtVar, StmtWhile,
};
use super::error::RuntimeError;
use super::store::StoreView;
use super::value::Value;

verus! {

/// One piece of work on the machine's agenda. Work that follows the
/// evaluation of an expression finds the value on the value stack.
#[derive(Clone, Copy)]
pub enum Task<'a> {
    /// Runs the statements of the list from the given index on.
    Sequence(&'a Vec<Stmt<'a>>, usize),
    /// Runs one statement.
    Execute(&'a Stmt<'a>),
    /// Evaluates one expression and pushes its value.
    Evaluate(&'a Expr<'a>),
    /// Evaluates the expressions of the list from the given index on.
    Arguments(&'a Vec<Expr<'a>>, usize),
    /// Leaves a block: the given frame is the current one again.
    LeaveBlock(usize),
    /// Ends a call: the frame `caller` is the current one again, the value
    /// stack is cut back to the `base` values it held when the call began,
    /// and the call gives `nil`, or `this` of the frame `receiver` for an
    /// initializer.
    FinishCall { caller: usize, receiver: Option<usize>, base: usize },
    /// Drops the value of an expression statement.
    Discard,
    /// Prints the value.
    Print,
    /// Binds the value to the variable that the statement declares.
    DefineVar(&'a StmtVar<'a>),
    /// Chooses a branch by the value of the condition.
    Branch(&'a StmtIf<'a>),
    /// Runs the body once more where the value of the condition is truthy.
    Loop(&'a StmtWhile<'a>),
    /// Returns the value from the innermost call.
    Return(&'a StmtReturn<'a>),
    /// Declares a class whose superclass is the value.
    DeclareClass(&'a StmtClass<'a>),
    /// Decides by the left operand whether the right one is evaluated.
    LogicalRight(&'a ExprLogical<'a>),
    /// Checks that the value is an object before the new value of a
    /// property is evaluated.
    SetCheck(&'a ExprSet<'a>),
    /// Stores the value in a property of the object below it.
    SetStore(&'a ExprSet<'a>),
    /// Applies a unary operator to the value.
    Unary(&'a ExprUnary<'a>),
    /// Applies a binary operator to the two values.
    Binary(&'a ExprBinary<'a>),
    /// Checks that the value can be called before the arguments are
    /// evaluated.
    CallCheck(&'a ExprCall<'a>),
    /// Calls the callee with the arguments above it.
    Call(&'a ExprCall<'a>),
    /// Reads a property of the value.
    GetProperty(&'a ExprGet<'a>),
    /// Assigns the value to a variable.
    Assign(&'a ExprAssign<'a>),
}

/// An operation on two numbers that gives a number.
#[derive(Debug, PartialEq, Eq, Structural, Clone, Copy)]
pub enum Arithmetic {
    Add,
    Subtract,
    Multiply,
    Divide,
}

/// A comparison of two numbers.
#[derive(Debug, PartialEq, Eq, Structural, Clone, Copy)]
pub enum Comparison {
    Greater,
    GreaterEqual,
    Less,
    LessEqual,
    Equal,
    NotEqual,
}

/// What a step of the machine hands to the host.
#[derive(Debug, PartialEq, Clone, Copy)]
pub enum Action<'a> {
    /// Nothing is asked: take the next step.
    Continue,
    /// Print the value on a line of its own; then take the next step.
    Print(Value),
    /// Answer with the number that the decimal text denotes.
    ParseNumber(&'a String),
    /// Answer with the negated number.
    Negate(u64),
    /// Answer with the result of the operation on the two numbers.
    Calculate(Arithmetic, u64, u64),
    /// Answer with whether the comparison holds of the two numbers.
    Compare(Comparison, u64, u64),
    /// Answer with the seconds since the Unix epoch.
    Clock,
    /// The program has run to its end.
    Finished,
    /// The program has failed.
    Failed(RuntimeError<'a>),
}

/// What the host hands to a step of the machine.
#[derive(Debug, PartialEq, Eq, Structural, Clone, Copy)]
pub enum Event {
    /// Nothing was asked.
    Proceed,
    /// The number that was asked for, as the bits of a double.
    Number(u64),
    /// The truth value that was asked for.
    Boolean(bool),
}

/// What the machine waits for.
#[derive(Debug, PartialEq, Eq, Structural, Clone, Copy)]
pub enum Awaiting {
    Nothing,
    Number,
    Boolean,
}

/// The mathematical view of the machine.
pub struct MachineView<'a> {
    /// What the program has created.
    pub store: StoreView<'a>,
    /// The agenda; the work to do next is last.
    pub tasks: Seq<Task<'a>>,
    /// The values of the expressions evaluated and not yet used.
    pub values: Seq<Value>,
    /// The current frame.
    pub environment: usize,
    /// The frame of the global variables.
    pub globals: usize,
    /// The depths that the resolver recorded.
    pub locals: Map<u32, usize>,
    /// What the host was asked for.
    pub awaiting: Awaiting,
}

} // verus!
