//! Errors of parsing, and the contexts in which they arise.

use vstd::prelude::*;
use vstd::string::*;
use crate::lex::Token;
use crate::text::{decimal, decimal_string};

verus! {

/// A failure of the token stream itself.
#[derive(Debug, PartialEq, Eq, Structural, Clone, Copy)]
pub enum TokenStreamError {
    /// A token was asked for where the stream has none.
    OutOfBounds,
}

impl TokenStreamError {
    /// The text of the error.
    pub open spec fn message_spec(&self) -> Seq<char> {
        "Internal Parser Error"@
    }

    /// The text of the error.
    pub fn message(&self) -> (text: String)
        ensures
            text@ == self.message_spec(),
    {
        String::from_str("Internal Parser Error")
    }
}

/// What the parser was looking for when it failed: a parse error without its
/// token.
#[derive(Debug, PartialEq, Eq, Structural, Clone, Copy)]
pub enum ParserErrorContext {
    UnmatchedParanthesis,
    ExpectedLeftParenAfterIf,
    ExpectedLeftParenAfterFor,
    ExpectedLeftParenAfterWhile,
    ExpectedRightParenAfterCondition,
    ExpectedRightParenAfterForClause,
    ExpectedRightParenAfterArguments,
    ExpectedExpression,
    ExpectedSemicolon,
    ExpectedFunctionName,
    ExpectedLeftParenAfterFunctionName,
    TooManyFunctionParameters,
    ExpectedParameterName,
    ExpectedRightParenAfterParameters,
    ExpectedLeftBraceBeforeFunctionBody,
    ExpectedSemicolonAfterLoopCondition,
    ExpectedSemicolonAfterReturnValue,
    UnexpectedToken,
    UnexpectedEOF,
    InvalidAssignmentTarget,
    TooManyFunctionArguments,
    ExpectedRightBrace,
    ExpectedClassName,
    ExpectedSuperclassName,
    ExpectedLeftBraceBeforeClassBody,
    ExpectedMethod,
    ExpectedRightBraceAfterClassBody,
    ExpectedPropertyNameAfterDot,
    ExpectedDotAfterSuper,
    ExpectedSuperclassMethodName,
    TokenStream,
}

/// A parse error: what was expected, and the token at which it was found
/// missing.
#[derive(Debug, PartialEq, Clone, Copy)]
pub enum ParserError<'a> {
    UnmatchedParanthesis { token: Token<'a> },
    ExpectedLeftParenAfterIf { token: Token<'a> },
    ExpectedLeftParenAfterFor { token: Token<'a> },
    ExpectedLeftParenAfterWhile { token: Token<'a> },
    ExpectedRightParenAfterCondition { token: Token<'a> },
    ExpectedRightParenAfterForClause { token: Token<'a> },
    ExpectedRightParenAfterArguments { token: Token<'a> },
    ExpectedExpression { token: Token<'a> },
    ExpectedSemicolon { token: Token<'a> },
    ExpectedFunctionName { token: Token<'a> },
    ExpectedLeftParenAfterFunctionName { token: Token<'a> },
    TooManyFunctionParameters { token: Token<'a> },
    ExpectedParameterName { token: Token<'a> },
    ExpectedRightParenAfterParameters { token: Token<'a> },
    ExpectedLeftBraceBeforeFunctionBody { token: Token<'a> },
    ExpectedSemicolonAfterLoopCondition { token: Token<'a> },
    ExpectedSemicolonAfterReturnValue { token: Token<'a> },
    UnexpectedToken { token: Token<'a> },
    UnexpectedEOF { token: Token<'a> },
    InvalidAssignmentTarget { token: Token<'a> },
    TooManyFunctionArguments { token: Token<'a> },
    ExpectedRightBrace { token: Token<'a> },
    ExpectedClassName { token: Token<'a> },
    ExpectedSuperclassName { token: Token<'a> },
    ExpectedLeftBraceBeforeClassBody { token: Token<'a> },
    ExpectedMethod { token: Token<'a> },
    ExpectedRightBraceAfterClassBody { token: Token<'a> },
    ExpectedPropertyNameAfterDot { token: Token<'a> },
    ExpectedDotAfterSuper { token: Token<'a> },
    ExpectedSuperclassMethodName { token: Token<'a> },
    TokenStream(TokenStreamError),
}

impl<'a> ParserError<'a> {
    /// What the parser was looking for.
    pub open spec fn context_spec(&self) -> ParserErrorContext {
        match self {
            ParserError::UnmatchedParanthesis { .. } => ParserErrorContext::UnmatchedParanthesis,
            ParserError::ExpectedLeftParenAfterIf { .. } => ParserErrorContext::ExpectedLeftParenAfterIf,
            ParserError::ExpectedLeftParenAfterFor { .. } => ParserErrorContext::ExpectedLeftParenAfterFor,
            ParserError::ExpectedLeftParenAfterWhile { .. } => ParserErrorContext::ExpectedLeftParenAfterWhile,
            ParserError::ExpectedRightParenAfterCondition { .. } => ParserErrorContext::ExpectedRightParenAfterCondition,
            ParserError::ExpectedRightParenAfterForClause { .. } => ParserErrorContext::ExpectedRightParenAfterForClause,
            ParserError::ExpectedRightParenAfterArguments { .. } => ParserErrorContext::ExpectedRightParenAfterArguments,
            ParserError::ExpectedExpression { .. } => ParserErrorContext::ExpectedExpression,
            ParserError::ExpectedSemicolon { .. } => ParserErrorContext::ExpectedSemicolon,
            ParserError::ExpectedFunctionName { .. } => ParserErrorContext::ExpectedFunctionName,
            ParserError::ExpectedLeftParenAfterFunctionName { .. } => ParserErrorContext::ExpectedLeftParenAfterFunctionName,
            ParserError::TooManyFunctionParameters { .. } => ParserErrorContext::TooManyFunctionParameters,
            ParserError::ExpectedParameterName { .. } => ParserErrorContext::ExpectedParameterName,
            ParserError::ExpectedRightParenAfterParameters { .. } => ParserErrorContext::ExpectedRightParenAfterParameters,
            ParserError::ExpectedLeftBraceBeforeFunctionBody { .. } => ParserErrorContext::ExpectedLeftBraceBeforeFunctionBody,
            ParserError::ExpectedSemicolonAfterLoopCondition { .. } => ParserErrorContext::ExpectedSemicolonAfterLoopCondition,
            ParserError::ExpectedSemicolonAfterReturnValue { .. } => ParserErrorContext::ExpectedSemicolonAfterReturnValue,
            ParserError::UnexpectedToken { .. } => ParserErrorContext::UnexpectedToken,
            ParserError::UnexpectedEOF { .. } => ParserErrorContext::UnexpectedEOF,
            ParserError::InvalidAssignmentTarget { .. } => ParserErrorContext::InvalidAssignmentTarget,
            ParserError::TooManyFunctionArguments { .. } => ParserErrorContext::TooManyFunctionArguments,
            ParserError::ExpectedRightBrace { .. } => ParserErrorContext::ExpectedRightBrace,
            ParserError::ExpectedClassName { .. } => ParserErrorContext::ExpectedClassName,
            ParserError::ExpectedSuperclassName { .. } => ParserErrorContext::ExpectedSuperclassName,
            ParserError::ExpectedLeftBraceBeforeClassBody { .. } => ParserErrorContext::ExpectedLeftBraceBeforeClassBody,
            ParserError::ExpectedMethod { .. } => ParserErrorContext::ExpectedMethod,
            ParserError::ExpectedRightBraceAfterClassBody { .. } => ParserErrorContext::ExpectedRightBraceAfterClassBody,
            ParserError::ExpectedPropertyNameAfterDot { .. } => ParserErrorContext::ExpectedPropertyNameAfterDot,
            ParserError::ExpectedDotAfterSuper { .. } => ParserErrorContext::ExpectedDotAfterSuper,
            ParserError::ExpectedSuperclassMethodName { .. } => ParserErrorContext::ExpectedSuperclassMethodName,
            ParserError::TokenStream(_) => ParserErrorContext::TokenStream,
        }
    }

    /// The token that the error points at; a failure of the token stream has
    /// none.
    pub open spec fn token_spec(&self) -> Option<Token<'a>> {
        match self {
            ParserError::UnmatchedParanthesis { token } => Some(*token),
            ParserError::ExpectedLeftParenAfterIf { token } => Some(*token),
            ParserError::ExpectedLeftParenAfterFor { token } => Some(*token),
            ParserError::ExpectedLeftParenAfterWhile { token } => Some(*token),
            ParserError::ExpectedRightParenAfterCondition { token } => Some(*token),
            ParserError::ExpectedRightParenAfterForClause { token } => Some(*token),
            ParserError::ExpectedRightParenAfterArguments { token } => Some(*token),
            ParserError::ExpectedExpression { token } => Some(*token),
            ParserError::ExpectedSemicolon { token } => Some(*token),
            ParserError::ExpectedFunctionName { token } => Some(*token),
            ParserError::ExpectedLeftParenAfterFunctionName { token } => Some(*token),
            ParserError::TooManyFunctionParameters { token } => Some(*token),
            ParserError::ExpectedParameterName { token } => Some(*token),
            ParserError::ExpectedRightParenAfterParameters { token } => Some(*token),
            ParserError::ExpectedLeftBraceBeforeFunctionBody { token } => Some(*token),
            ParserError::ExpectedSemicolonAfterLoopCondition { token } => Some(*token),
            ParserError::ExpectedSemicolonAfterReturnValue { token } => Some(*token),
            ParserError::UnexpectedToken { token } => Some(*token),
            ParserError::UnexpectedEOF { token } => Some(*token),
            ParserError::InvalidAssignmentTarget { token } => Some(*token),
            ParserError::TooManyFunctionArguments { token } => Some(*token),
            ParserError::ExpectedRightBrace { token } => Some(*token),
            ParserError::ExpectedClassName { token } => Some(*token),
            ParserError::ExpectedSuperclassName { token } => Some(*token),
            ParserError::ExpectedLeftBraceBeforeClassBody { token } => Some(*token),
            ParserError::ExpectedMethod { token } => Some(*token),
            ParserError::ExpectedRightBraceAfterClassBody { token } => Some(*token),
            ParserError::ExpectedPropertyNameAfterDot { token } => Some(*token),
            ParserError::ExpectedDotAfterSuper { token } => Some(*token),
            ParserError::ExpectedSuperclassMethodName { token } => Some(*token),
            ParserError::TokenStream(_) => None,
        }
    }

    /// What the parser was looking for.
    #[verifier::when_used_as_spec(context_spec)]
    pub fn context(&self) -> (context: ParserErrorContext)
        ensures
            context == self.context_spec(),
    {
        match self {
            ParserError::UnmatchedParanthesis { .. } => ParserErrorContext::UnmatchedParanthesis,
            ParserError::ExpectedLeftParenAfterIf { .. } => ParserErrorContext::ExpectedLeftParenAfterIf,
            ParserError::ExpectedLeftParenAfterFor { .. } => ParserErrorContext::ExpectedLeftParenAfterFor,
            ParserError::ExpectedLeftParenAfterWhile { .. } => ParserErrorContext::ExpectedLeftParenAfterWhile,
            ParserError::ExpectedRightParenAfterCondition { .. } => ParserErrorContext::ExpectedRightParenAfterCondition,
            ParserError::ExpectedRightParenAfterForClause { .. } => ParserErrorContext::ExpectedRightParenAfterForClause,
            ParserError::ExpectedRightParenAfterArguments { .. } => ParserErrorContext::ExpectedRightParenAfterArguments,
            ParserError::ExpectedExpression { .. } => ParserErrorContext::ExpectedExpression,
            ParserError::ExpectedSemicolon { .. } => ParserErrorContext::ExpectedSemicolon,
            ParserError::ExpectedFunctionName { .. } => ParserErrorContext::ExpectedFunctionName,
            ParserError::ExpectedLeftParenAfterFunctionName { .. } => ParserErrorContext::ExpectedLeftParenAfterFunctionName,
            ParserError::TooManyFunctionParameters { .. } => ParserErrorContext::TooManyFunctionParameters,
            ParserError::ExpectedParameterName { .. } => ParserErrorContext::ExpectedParameterName,
            ParserError::ExpectedRightParenAfterParameters { .. } => ParserErrorContext::ExpectedRightParenAfterParameters,
            ParserError::ExpectedLeftBraceBeforeFunctionBody { .. } => ParserErrorContext::ExpectedLeftBraceBeforeFunctionBody,
            ParserError::ExpectedSemicolonAfterLoopCondition { .. } => ParserErrorContext::ExpectedSemicolonAfterLoopCondition,
            ParserError::ExpectedSemicolonAfterReturnValue { .. } => ParserErrorContext::ExpectedSemicolonAfterReturnValue,
            ParserError::UnexpectedToken { .. } => ParserErrorContext::UnexpectedToken,
            ParserError::UnexpectedEOF { .. } => ParserErrorContext::UnexpectedEOF,
            ParserError::InvalidAssignmentTarget { .. } => ParserErrorContext::InvalidAssignmentTarget,
            ParserError::TooManyFunctionArguments { .. } => ParserErrorContext::TooManyFunctionArguments,
            ParserError::ExpectedRightBrace { .. } => ParserErrorContext::ExpectedRightBrace,
            ParserError::ExpectedClassName { .. } => ParserErrorContext::ExpectedClassName,
            ParserError::ExpectedSuperclassName { .. } => ParserErrorContext::ExpectedSuperclassName,
            ParserError::ExpectedLeftBraceBeforeClassBody { .. } => ParserErrorContext::ExpectedLeftBraceBeforeClassBody,
            ParserError::ExpectedMethod { .. } => ParserErrorContext::ExpectedMethod,
            ParserError::ExpectedRightBraceAfterClassBody { .. } => ParserErrorContext::ExpectedRightBraceAfterClassBody,
            ParserError::ExpectedPropertyNameAfterDot { .. } => ParserErrorContext::ExpectedPropertyNameAfterDot,
            ParserError::ExpectedDotAfterSuper { .. } => ParserErrorContext::ExpectedDotAfterSuper,
            ParserError::ExpectedSuperclassMethodName { .. } => ParserErrorContext::ExpectedSuperclassMethodName,
            ParserError::TokenStream(_) => ParserErrorContext::TokenStream,
        }
    }

    /// The token that the error points at.
    #[verifier::when_used_as_spec(token_spec)]
    pub fn token(&self) -> (token: Option<Token<'a>>)
        ensures
            token == self.token_spec(),
    {
        match self {
            ParserError::UnmatchedParanthesis { token } => Some(*token),
            ParserError::ExpectedLeftParenAfterIf { token } => Some(*token),
            ParserError::ExpectedLeftParenAfterFor { token } => Some(*token),
            ParserError::ExpectedLeftParenAfterWhile { token } => Some(*token),
            ParserError::ExpectedRightParenAfterCondition { token } => Some(*token),
            ParserError::ExpectedRightParenAfterForClause { token } => Some(*token),
            ParserError::ExpectedRightParenAfterArguments { token } => Some(*token),
            ParserError::ExpectedExpression { token } => Some(*token),
            ParserError::ExpectedSemicolon { token } => Some(*token),
            ParserError::ExpectedFunctionName { token } => Some(*token),
            ParserError::ExpectedLeftParenAfterFunctionName { token } => Some(*token),
            ParserError::TooManyFunctionParameters { token } => Some(*token),
            ParserError::ExpectedParameterName { token } => Some(*token),
            ParserError::ExpectedRightParenAfterParameters { token } => Some(*token),
            ParserError::ExpectedLeftBraceBeforeFunctionBody { token } => Some(*token),
            ParserError::ExpectedSemicolonAfterLoopCondition { token } => Some(*token),
            ParserError::ExpectedSemicolonAfterReturnValue { token } => Some(*token),
            ParserError::UnexpectedToken { token } => Some(*token),
            ParserError::UnexpectedEOF { token } => Some(*token),
            ParserError::InvalidAssignmentTarget { token } => Some(*token),
            ParserError::TooManyFunctionArguments { token } => Some(*token),
            ParserError::ExpectedRightBrace { token } => Some(*token),
            ParserError::ExpectedClassName { token } => Some(*token),
            ParserError::ExpectedSuperclassName { token } => Some(*token),
            ParserError::ExpectedLeftBraceBeforeClassBody { token } => Some(*token),
            ParserError::ExpectedMethod { token } => Some(*token),
            ParserError::ExpectedRightBraceAfterClassBody { token } => Some(*token),
            ParserError::ExpectedPropertyNameAfterDot { token } => Some(*token),
            ParserError::ExpectedDotAfterSuper { token } => Some(*token),
            ParserError::ExpectedSuperclassMethodName { token } => Some(*token),
            ParserError::TokenStream(_) => None,
        }
    }

    /// The text of the error: the line of its token in brackets, then what
    /// was expected.
    pub open spec fn message_spec(&self) -> Seq<char> {
        match self.token_spec() {
            Some(token) => {
                let head = "[line "@ + decimal(token.line as nat) + "] "@;
                if self.context_spec() == ParserErrorContext::UnexpectedToken {
                    head + "Error: Unexpected token: "@ + token.lexeme@
                } else {
                    head + self.context_spec().expectation()
                }
            },
            None => "Internal Parser Error"@,
        }
    }

    /// The text of the error.
    pub fn message(&self) -> (text: String)
        ensures
            text@ == self.message_spec(),
    {
        match self.token() {
            Some(token) => {
                let mut text = String::from_str("[line ");
                text.append(decimal_string(token.line as u64).as_str());
                text.append("] ");
                if self.context() == ParserErrorContext::UnexpectedToken {
                    text.append("Error: Unexpected token: ");
                    text.append(token.lexeme);
                } else {
                    text.append(self.context().expectation_text());
                }
                text
            },
            None => String::from_str("Internal Parser Error"),
        }
    }
}

impl ParserErrorContext {
    /// What an error of this context says after the line.
    pub open spec fn expectation(&self) -> Seq<char> {
        match self {
            ParserErrorContext::UnmatchedParanthesis => "Error: Expected ')' after expression"@,
            ParserErrorContext::ExpectedLeftParenAfterIf => "Error: Expected '(' after if"@,
            ParserErrorContext::ExpectedLeftParenAfterFor => "Error: Expected '(' after for"@,
            ParserErrorContext::ExpectedLeftParenAfterWhile => "Error: Expected '(' after while"@,
            ParserErrorContext::ExpectedRightParenAfterCondition => "Error: Expected ')' after condition"@,
            ParserErrorContext::ExpectedRightParenAfterForClause => "Error: Expected ')' after for clauses"@,
            ParserErrorContext::ExpectedRightParenAfterArguments => "Error: Expected ')' after for arguments"@,
            ParserErrorContext::ExpectedExpression => "Error: Expected expression"@,
            ParserErrorContext::ExpectedSemicolon => "Error: Expected semicolon"@,
            ParserErrorContext::ExpectedFunctionName => "Error: Expected function name"@,
            ParserErrorContext::ExpectedLeftParenAfterFunctionName => "Error: Expected ( after function name"@,
            ParserErrorContext::TooManyFunctionParameters => "Error: Can't have more than 255 parameters"@,
            ParserErrorContext::ExpectedParameterName => "Error: Expected Parameter Name"@,
            ParserErrorContext::ExpectedRightParenAfterParameters => "Error: Expected ) after parameters"@,
            ParserErrorContext::ExpectedLeftBraceBeforeFunctionBody => "Error: Expected { before function body"@,
            ParserErrorContext::ExpectedSemicolonAfterLoopCondition => "Error: Expected semicolon after loop condition"@,
            ParserErrorContext::ExpectedSemicolonAfterReturnValue => "Error: Expected semicolon after return value"@,
            ParserErrorContext::UnexpectedToken => "Error: Unexpected token"@,
            ParserErrorContext::UnexpectedEOF => "Error: Unexpected end of file"@,
            ParserErrorContext::InvalidAssignmentTarget => "Error: Invalid assignment target"@,
            ParserErrorContext::TooManyFunctionArguments => "Error: Can't have more than 255 arguments"@,
            ParserErrorContext::ExpectedRightBrace => "Error: Expected { after block"@,
            ParserErrorContext::ExpectedClassName => "Error: Expected class name"@,
            ParserErrorContext::ExpectedSuperclassName => "Error: Expected superclass name"@,
            ParserErrorContext::ExpectedLeftBraceBeforeClassBody => "Error: Expected { before class body"@,
            ParserErrorContext::ExpectedMethod => "Error: Expected method"@,
            ParserErrorContext::ExpectedRightBraceAfterClassBody => "Error: Expected } after class body"@,
            ParserErrorContext::ExpectedPropertyNameAfterDot => "Error: Expected property name after '.'"@,
            ParserErrorContext::ExpectedDotAfterSuper => "Error: Expected '.' after 'super'"@,
            ParserErrorContext::ExpectedSuperclassMethodName => "Error: Expected superclass method name"@,
            ParserErrorContext::TokenStream => "Internal Parser Error"@,
        }
    }

    /// What an error of this context says after the line.
    pub fn expectation_text(&self) -> (text: &'static str)
        ensures
            text@ == self.expectation(),
    {
        match self {
            ParserErrorContext::UnmatchedParanthesis => "Error: Expected ')' after expression",
            ParserErrorContext::ExpectedLeftParenAfterIf => "Error: Expected '(' after if",
            ParserErrorContext::ExpectedLeftParenAfterFor => "Error: Expected '(' after for",
            ParserErrorContext::ExpectedLeftParenAfterWhile => "Error: Expected '(' after while",
            ParserErrorContext::ExpectedRightParenAfterCondition => "Error: Expected ')' after condition",
            ParserErrorContext::ExpectedRightParenAfterForClause => "Error: Expected ')' after for clauses",
            ParserErrorContext::ExpectedRightParenAfterArguments => "Error: Expected ')' after for arguments",
            ParserErrorContext::ExpectedExpression => "Error: Expected expression",
            ParserErrorContext::ExpectedSemicolon => "Error: Expected semicolon",
            ParserErrorContext::ExpectedFunctionName => "Error: Expected function name",
            ParserErrorContext::ExpectedLeftParenAfterFunctionName => "Error: Expected ( after function name",
            ParserErrorContext::TooManyFunctionParameters => "Error: Can't have more than 255 parameters",
            ParserErrorContext::ExpectedParameterName => "Error: Expected Parameter Name",
            ParserErrorContext::ExpectedRightParenAfterParameters => "Error: Expected ) after parameters",
            ParserErrorContext::ExpectedLeftBraceBeforeFunctionBody => "Error: Expected { before function body",
            ParserErrorContext::ExpectedSemicolonAfterLoopCondition => "Error: Expected semicolon after loop condition",
            ParserErrorContext::ExpectedSemicolonAfterReturnValue => "Error: Expected semicolon after return value",
            ParserErrorContext::UnexpectedToken => "Error: Unexpected token",
            ParserErrorContext::UnexpectedEOF => "Error: Unexpected end of file",
            ParserErrorContext::InvalidAssignmentTarget => "Error: Invalid assignment target",
            ParserErrorContext::TooManyFunctionArguments => "Error: Can't have more than 255 arguments",
            ParserErrorContext::ExpectedRightBrace => "Error: Expected { after block",
            ParserErrorContext::ExpectedClassName => "Error: Expected class name",
            ParserErrorContext::ExpectedSuperclassName => "Error: Expected superclass name",
            ParserErrorContext::ExpectedLeftBraceBeforeClassBody => "Error: Expected { before class body",
            ParserErrorContext::ExpectedMethod => "Error: Expected method",
            ParserErrorContext::ExpectedRightBraceAfterClassBody => "Error: Expected } after class body",
            ParserErrorContext::ExpectedPropertyNameAfterDot => "Error: Expected property name after '.'",
            ParserErrorContext::ExpectedDotAfterSuper => "Error: Expected '.' after 'super'",
            ParserErrorContext::ExpectedSuperclassMethodName => "Error: Expected superclass method name",
            ParserErrorContext::TokenStream => "Internal Parser Error",
        }
    }

    /// The error of this context at `token`. A failure of the token stream
    /// points at no token.
    pub open spec fn to_error_spec<'a>(self, token: Token<'a>) -> ParserError<'a> {
        match self {
            ParserErrorContext::UnmatchedParanthesis => ParserError::UnmatchedParanthesis { token },
            ParserErrorContext::ExpectedLeftParenAfterIf => ParserError::ExpectedLeftParenAfterIf { token },
            ParserErrorContext::ExpectedLeftParenAfterFor => ParserError::ExpectedLeftParenAfterFor { token },
            ParserErrorContext::ExpectedLeftParenAfterWhile => ParserError::ExpectedLeftParenAfterWhile { token },
            ParserErrorContext::ExpectedRightParenAfterCondition => ParserError::ExpectedRightParenAfterCondition { token },
            ParserErrorContext::ExpectedRightParenAfterForClause => ParserError::ExpectedRightParenAfterForClause { token },
            ParserErrorContext::ExpectedRightParenAfterArguments => ParserError::ExpectedRightParenAfterArguments { token },
            ParserErrorContext::ExpectedExpression => ParserError::ExpectedExpression { token },
            ParserErrorContext::ExpectedSemicolon => ParserError::ExpectedSemicolon { token },
            ParserErrorContext::ExpectedFunctionName => ParserError::ExpectedFunctionName { token },
            ParserErrorContext::ExpectedLeftParenAfterFunctionName => ParserError::ExpectedLeftParenAfterFunctionName { token },
            ParserErrorContext::TooManyFunctionParameters => ParserError::TooManyFunctionParameters { token },
            ParserErrorContext::ExpectedParameterName => ParserError::ExpectedParameterName { token },
            ParserErrorContext::ExpectedRightParenAfterParameters => ParserError::ExpectedRightParenAfterParameters { token },
            ParserErrorContext::ExpectedLeftBraceBeforeFunctionBody => ParserError::ExpectedLeftBraceBeforeFunctionBody { token },
            ParserErrorContext::ExpectedSemicolonAfterLoopCondition => ParserError::ExpectedSemicolonAfterLoopCondition { token },
            ParserErrorContext::ExpectedSemicolonAfterReturnValue => ParserError::ExpectedSemicolonAfterReturnValue { token },
            ParserErrorContext::UnexpectedToken => ParserError::UnexpectedToken { token },
            ParserErrorContext::UnexpectedEOF => ParserError::UnexpectedEOF { token },
            ParserErrorContext::InvalidAssignmentTarget => ParserError::InvalidAssignmentTarget { token },
            ParserErrorContext::TooManyFunctionArguments => ParserError::TooManyFunctionArguments { token },
            ParserErrorContext::ExpectedRightBrace => ParserError::ExpectedRightBrace { token },
            ParserErrorContext::ExpectedClassName => ParserError::ExpectedClassName { token },
            ParserErrorContext::ExpectedSuperclassName => ParserError::ExpectedSuperclassName { token },
            ParserErrorContext::ExpectedLeftBraceBeforeClassBody => ParserError::ExpectedLeftBraceBeforeClassBody { token },
            ParserErrorContext::ExpectedMethod => ParserError::ExpectedMethod { token },
            ParserErrorContext::ExpectedRightBraceAfterClassBody => ParserError::ExpectedRightBraceAfterClassBody { token },
            ParserErrorContext::ExpectedPropertyNameAfterDot => ParserError::ExpectedPropertyNameAfterDot { token },
            ParserErrorContext::ExpectedDotAfterSuper => ParserError::ExpectedDotAfterSuper { token },
            ParserErrorContext::ExpectedSuperclassMethodName => ParserError::ExpectedSuperclassMethodName { token },
            ParserErrorContext::TokenStream => ParserError::TokenStream(
                TokenStreamError::OutOfBounds,
            ),
        }
    }

    /// The error of this context at `token`.
    #[verifier::when_used_as_spec(to_error_spec)]
    pub fn to_error<'a>(self, token: Token<'a>) -> (error: ParserError<'a>)
        ensures
            error == self.to_error_spec(token),
            error.context_spec() == self,
            error.token_spec() == if self == ParserErrorContext::TokenStream {
                None
            } else {
                Some(token)
            },
            self == ParserErrorContext::TokenStream ==> error == ParserError::TokenStream::<'a>(
                TokenStreamError::OutOfBounds,
            ),
    {
        match self {
            ParserErrorContext::UnmatchedParanthesis => ParserError::UnmatchedParanthesis { token },
            ParserErrorContext::ExpectedLeftParenAfterIf => ParserError::ExpectedLeftParenAfterIf { token },
            ParserErrorContext::ExpectedLeftParenAfterFor => ParserError::ExpectedLeftParenAfterFor { token },
            ParserErrorContext::ExpectedLeftParenAfterWhile => ParserError::ExpectedLeftParenAfterWhile { token },
            ParserErrorContext::ExpectedRightParenAfterCondition => ParserError::ExpectedRightParenAfterCondition { token },
            ParserErrorContext::ExpectedRightParenAfterForClause => ParserError::ExpectedRightParenAfterForClause { token },
            ParserErrorContext::ExpectedRightParenAfterArguments => ParserError::ExpectedRightParenAfterArguments { token },
            ParserErrorContext::ExpectedExpression => ParserError::ExpectedExpression { token },
            ParserErrorContext::ExpectedSemicolon => ParserError::ExpectedSemicolon { token },
            ParserErrorContext::ExpectedFunctionName => ParserError::ExpectedFunctionName { token },
            ParserErrorContext::ExpectedLeftParenAfterFunctionName => ParserError::ExpectedLeftParenAfterFunctionName { token },
            ParserErrorContext::TooManyFunctionParameters => ParserError::TooManyFunctionParameters { token },
            ParserErrorContext::ExpectedParameterName => ParserError::ExpectedParameterName { token },
            ParserErrorContext::ExpectedRightParenAfterParameters => ParserError::ExpectedRightParenAfterParameters { token },
            ParserErrorContext::ExpectedLeftBraceBeforeFunctionBody => ParserError::ExpectedLeftBraceBeforeFunctionBody { token },
            ParserErrorContext::ExpectedSemicolonAfterLoopCondition => ParserError::ExpectedSemicolonAfterLoopCondition { token },
            ParserErrorContext::ExpectedSemicolonAfterReturnValue => ParserError::ExpectedSemicolonAfterReturnValue { token },
            ParserErrorContext::UnexpectedToken => ParserError::UnexpectedToken { token },
            ParserErrorContext::UnexpectedEOF => ParserError::UnexpectedEOF { token },
            ParserErrorContext::InvalidAssignmentTarget => ParserError::InvalidAssignmentTarget { token },
            ParserErrorContext::TooManyFunctionArguments => ParserError::TooManyFunctionArguments { token },
            ParserErrorContext::ExpectedRightBrace => ParserError::ExpectedRightBrace { token },
            ParserErrorContext::ExpectedClassName => ParserError::ExpectedClassName { token },
            ParserErrorContext::ExpectedSuperclassName => ParserError::ExpectedSuperclassName { token },
            ParserErrorContext::ExpectedLeftBraceBeforeClassBody => ParserError::ExpectedLeftBraceBeforeClassBody { token },
            ParserErrorContext::ExpectedMethod => ParserError::ExpectedMethod { token },
            ParserErrorContext::ExpectedRightBraceAfterClassBody => ParserError::ExpectedRightBraceAfterClassBody { token },
            ParserErrorContext::ExpectedPropertyNameAfterDot => ParserError::ExpectedPropertyNameAfterDot { token },
            ParserErrorContext::ExpectedDotAfterSuper => ParserError::ExpectedDotAfterSuper { token },
            ParserErrorContext::ExpectedSuperclassMethodName => ParserError::ExpectedSuperclassMethodName { token },
            ParserErrorContext::TokenStream => ParserError::TokenStream(
                TokenStreamError::OutOfBounds,
            ),
        }
    }
}

} // verus!
