//! Errors of resolving and of running a program.

use vstd::prelude::*;
use vstd::string::*;
use crate::lex::Token;
use crate::text::{decimal, decimal_string};

verus! {

/// A failure inside a callable that no program should cause.
#[derive(Debug, PartialEq, Eq, Structural, Clone, Copy)]
pub enum CallableError {
    InternalError,
    ParamNotFound,
}

impl CallableError {
    /// The text of the error.
    pub open spec fn message_spec(&self) -> Seq<char> {
        match self {
            CallableError::InternalError => "Internal Error"@,
            CallableError::ParamNotFound => "Parameter not Found; Internal Error"@,
        }
    }

    /// The text of the error.
    pub fn message(&self) -> (text: String)
        ensures
            text@ == self.message_spec(),
    {
        match self {
            CallableError::InternalError => String::from_str("Internal Error"),
            CallableError::ParamNotFound => String::from_str("Parameter not Found; Internal Error"),
        }
    }
}

/// A failure of a property access or of a class declaration.
#[derive(Debug, PartialEq, Clone, Copy)]
pub enum ClassError<'a> {
    InvalidPropertyAccess { token: Token<'a> },
    UndefinedProperty { token: Token<'a> },
    SuperclassNotAClass { token: Token<'a> },
}

impl<'a> ClassError<'a> {
    /// The token that the error points at.
    pub open spec fn token_spec(&self) -> Token<'a> {
        match self {
            ClassError::InvalidPropertyAccess { token } => *token,
            ClassError::UndefinedProperty { token } => *token,
            ClassError::SuperclassNotAClass { token } => *token,
        }
    }

    /// The text of the error: the line of its token in brackets, then what
    /// went wrong.
    pub open spec fn message_spec(&self) -> Seq<char> {
        let head = "[line "@ + decimal(self.token_spec().line as nat) + "] "@;
        match self {
            ClassError::InvalidPropertyAccess { .. } => head + "Only instances have properties."@,
            ClassError::UndefinedProperty { token } => head + "Undefined property "@
                + token.lexeme@ + "."@,
            ClassError::SuperclassNotAClass { .. } => head + "Superclass must be a class."@,
        }
    }

    /// The token that the error points at.
    #[verifier::when_used_as_spec(token_spec)]
    pub fn token(&self) -> (token: Token<'a>)
        ensures
            token == self.token_spec(),
    {
        match self {
            ClassError::InvalidPropertyAccess { token } => *token,
            ClassError::UndefinedProperty { token } => *token,
            ClassError::SuperclassNotAClass { token } => *token,
        }
    }

    /// The text of the error.
    pub fn message(&self) -> (text: String)
        ensures
            text@ == self.message_spec(),
    {
        let mut text = String::from_str("[line ");
        text.append(decimal_string(self.token().line as u64).as_str());
        text.append("] ");
        match self {
            ClassError::InvalidPropertyAccess { .. } => {
                text.append("Only instances have properties.");
            },
            ClassError::UndefinedProperty { token } => {
                text.append("Undefined property ");
                text.append(token.lexeme);
                text.append(".");
            },
            ClassError::SuperclassNotAClass { .. } => {
                text.append("Superclass must be a class.");
            },
        }
        text
    }
}

/// A rule of scoping that a program breaks.
#[derive(Debug, PartialEq, Clone, Copy)]
pub enum ResolverError<'a> {
    VariableInOwnInitializer { token: Token<'a> },
    SameNameVariableInLocalScope { token: Token<'a> },
    TopLevelReturn { token: Token<'a> },
    ThisOutsideClass { token: Token<'a> },
    SuperOutsideClass { token: Token<'a> },
    SuperInClassWithoutSuperclass { token: Token<'a> },
    ReturnInConstructor { token: Token<'a> },
    InheritanceCycle { token: Token<'a> },
    InternalResolverError,
}

impl<'a> ResolverError<'a> {
    /// The token that the error points at; an internal error has none.
    pub open spec fn token_spec(&self) -> Option<Token<'a>> {
        match self {
            ResolverError::VariableInOwnInitializer { token } => Some(*token),
            ResolverError::SameNameVariableInLocalScope { token } => Some(*token),
            ResolverError::TopLevelReturn { token } => Some(*token),
            ResolverError::ThisOutsideClass { token } => Some(*token),
            ResolverError::SuperOutsideClass { token } => Some(*token),
            ResolverError::SuperInClassWithoutSuperclass { token } => Some(*token),
            ResolverError::ReturnInConstructor { token } => Some(*token),
            ResolverError::InheritanceCycle { token } => Some(*token),
            ResolverError::InternalResolverError => None,
        }
    }

    /// The rule that was broken, in words.
    pub open spec fn rule_spec(&self) -> Seq<char> {
        match self {
            ResolverError::VariableInOwnInitializer { .. } => "Can't read local variable in its own initializer."@,
            ResolverError::SameNameVariableInLocalScope { .. } => "Already a variable with this name in this scope."@,
            ResolverError::TopLevelReturn { .. } => "Can't return from top-level code."@,
            ResolverError::ThisOutsideClass { .. } => "Can't use 'this' outside of a class."@,
            ResolverError::SuperOutsideClass { .. } => "Can't use 'super' outside of a class."@,
            ResolverError::SuperInClassWithoutSuperclass { .. } => "Can't use 'super' in a class with no superclass."@,
            ResolverError::ReturnInConstructor { .. } => "Can't return a value from an initializer."@,
            ResolverError::InheritanceCycle { .. } => "A class can't inherit from itself."@,
            ResolverError::InternalResolverError => "Internal Error"@,
        }
    }

    /// The text of the error: the line and the text of its token, then the
    /// rule that was broken.
    pub open spec fn message_spec(&self) -> Seq<char> {
        match self.token_spec() {
            Some(token) => "[line "@ + decimal(token.line as nat) + "] Error at '"@ + token.lexeme@
                + "': "@ + self.rule_spec(),
            None => self.rule_spec(),
        }
    }

    /// The token that the error points at.
    #[verifier::when_used_as_spec(token_spec)]
    pub fn token(&self) -> (token: Option<Token<'a>>)
        ensures
            token == self.token_spec(),
    {
        match self {
            ResolverError::VariableInOwnInitializer { token } => Some(*token),
            ResolverError::SameNameVariableInLocalScope { token } => Some(*token),
            ResolverError::TopLevelReturn { token } => Some(*token),
            ResolverError::ThisOutsideClass { token } => Some(*token),
            ResolverError::SuperOutsideClass { token } => Some(*token),
            ResolverError::SuperInClassWithoutSuperclass { token } => Some(*token),
            ResolverError::ReturnInConstructor { token } => Some(*token),
            ResolverError::InheritanceCycle { token } => Some(*token),
            ResolverError::InternalResolverError => None,
        }
    }

    /// The rule that was broken, in words.
    pub fn rule(&self) -> (text: &'static str)
        ensures
            text@ == self.rule_spec(),
    {
        match self {
            ResolverError::VariableInOwnInitializer { .. } => "Can't read local variable in its own initializer.",
            ResolverError::SameNameVariableInLocalScope { .. } => "Already a variable with this name in this scope.",
            ResolverError::TopLevelReturn { .. } => "Can't return from top-level code.",
            ResolverError::ThisOutsideClass { .. } => "Can't use 'this' outside of a class.",
            ResolverError::SuperOutsideClass { .. } => "Can't use 'super' outside of a class.",
            ResolverError::SuperInClassWithoutSuperclass { .. } => "Can't use 'super' in a class with no superclass.",
            ResolverError::ReturnInConstructor { .. } => "Can't return a value from an initializer.",
            ResolverError::InheritanceCycle { .. } => "A class can't inherit from itself.",
            ResolverError::InternalResolverError => "Internal Error",
        }
    }

    /// The text of the error.
    pub fn message(&self) -> (text: String)
        ensures
            text@ == self.message_spec(),
    {
        match self.token() {
            Some(token) => {
                let mut text = String::from_str("[line ");
                text.append(decimal_string(token.line as u64).as_str());
                text.append("] Error at '");
                text.append(token.lexeme);
                text.append("': ");
                text.append(self.rule());
                text
            },
            None => String::from_str(self.rule()),
        }
    }
}

/// A failure while a program runs.
#[derive(Debug, PartialEq, Clone, Copy)]
pub enum RuntimeError<'a> {
    NumberOperand { operator: Token<'a> },
    MutlipleNumberOperands { operator: Token<'a> },
    NumberOrStringOperands { operator: Token<'a> },
    UndefinedVariable { name: Token<'a> },
    NotCallable { token: Token<'a> },
    ArgumentCount { token: Token<'a>, expected_arity: usize, given_len: usize },
    EnvironmentCreationError,
    CallableError(CallableError),
    ClassError(ClassError<'a>),
    ResolverError(ResolverError<'a>),
}

impl<'a> RuntimeError<'a> {
    /// The start of every message that points at a line.
    pub open spec fn line_head(line: u32) -> Seq<char> {
        "[line "@ + decimal(line as nat) + "] "@
    }

    /// The text of the error.
    pub open spec fn message_spec(&self) -> Seq<char> {
        match self {
            RuntimeError::NumberOperand { operator } => Self::line_head(operator.line)
                + "Operand must be a number."@,
            RuntimeError::MutlipleNumberOperands { operator } => Self::line_head(operator.line)
                + "Operands must be a number."@,
            RuntimeError::NumberOrStringOperands { operator } => Self::line_head(operator.line)
                + "Operands must be two numbers or two strings."@,
            RuntimeError::UndefinedVariable { name } => Self::line_head(name.line)
                + "Undefined Variable '"@ + name.lexeme@ + "'."@,
            RuntimeError::NotCallable { token } => Self::line_head(token.line)
                + "Can only call functions and classes."@,
            RuntimeError::ArgumentCount { token, expected_arity, given_len } => Self::line_head(
                token.line,
            ) + "Expected "@ + decimal(*expected_arity as nat) + " arguments but got "@ + decimal(
                *given_len as nat,
            ) + "."@,
            RuntimeError::EnvironmentCreationError => "Internal Error: Error while creating environments."@,
            RuntimeError::CallableError(e) => e.message_spec(),
            RuntimeError::ClassError(e) => e.message_spec(),
            RuntimeError::ResolverError(e) => e.message_spec(),
        }
    }

    /// The start of a message that points at a line.
    fn head(line: u32) -> (text: String)
        ensures
            text@ == Self::line_head(line),
    {
        let mut text = String::from_str("[line ");
        text.append(decimal_string(line as u64).as_str());
        text.append("] ");
        text
    }

    /// The text of the error.
    pub fn message(&self) -> (text: String)
        ensures
            text@ == self.message_spec(),
    {
        match self {
            RuntimeError::NumberOperand { operator } => {
                let mut text = Self::head(operator.line);
                text.append("Operand must be a number.");
                text
            },
            RuntimeError::MutlipleNumberOperands { operator } => {
                let mut text = Self::head(operator.line);
                text.append("Operands must be a number.");
                text
            },
            RuntimeError::NumberOrStringOperands { operator } => {
                let mut text = Self::head(operator.line);
                text.append("Operands must be two numbers or two strings.");
                text
            },
            RuntimeError::UndefinedVariable { name } => {
                let mut text = Self::head(name.line);
                text.append("Undefined Variable '");
                text.append(name.lexeme);
                text.append("'.");
                text
            },
            RuntimeError::NotCallable { token } => {
                let mut text = Self::head(token.line);
                text.append("Can only call functions and classes.");
                text
            },
            RuntimeError::ArgumentCount { token, expected_arity, given_len } => {
                let mut text = Self::head(token.line);
                text.append("Expected ");
                text.append(decimal_string(*expected_arity as u64).as_str());
                text.append(" arguments but got ");
                text.append(decimal_string(*given_len as u64).as_str());
                text.append(".");
                text
            },
            RuntimeError::EnvironmentCreationError => String::from_str(
                "Internal Error: Error while creating environments.",
            ),
            RuntimeError::CallableError(e) => e.message(),
            RuntimeError::ClassError(e) => e.message(),
            RuntimeError::ResolverError(e) => e.message(),
        }
    }
}

} // verus!
