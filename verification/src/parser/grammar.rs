//! The grammar, stated as functions from a token sequence and a position to
//! the tree that begins there and the position after it.

use vstd::prelude::*;
use crate::ast::{ExprView, FunctionView, LiteralView, StmtView};
use crate::lex::{Token, TokenType};
use super::error::{ParserError, ParserErrorContext, TokenStreamError};

verus! {

/// How many tokens lie at or after `pos`.
pub open spec fn remaining(tokens: Seq<Token>, pos: int) -> nat {
    if pos <= tokens.len() {
        (tokens.len() - pos) as nat
    } else {
        0
    }
}

/// The position `to` where it lies between `from` and the end of the
/// tokens, else `from`.
pub open spec fn clip(tokens: Seq<Token>, from: int, to: int) -> int {
    if to < from || to > tokens.len() {
        from
    } else {
        to
    }
}

/// Whether `pos` holds no token or the `EOF` token.
pub open spec fn at_end(tokens: Seq<Token>, pos: int) -> bool {
    !(0 <= pos < tokens.len()) || tokens[pos].kind == TokenType::EOF
}

/// Whether the token at `pos` is of kind `kind` and not the end.
pub open spec fn check(tokens: Seq<Token>, pos: int, kind: TokenType) -> bool {
    !at_end(tokens, pos) && tokens[pos].kind == kind
}

/// The position after the token at `pos`; the end is never passed.
pub open spec fn advanced(tokens: Seq<Token>, pos: int) -> int {
    if at_end(tokens, pos) {
        pos
    } else {
        pos + 1
    }
}

/// The token before `pos`.
pub open spec fn previous<'a>(tokens: Seq<Token<'a>>, pos: int) -> Result<
    Token<'a>,
    TokenStreamError,
> {
    if 0 < pos <= tokens.len() {
        Ok(tokens[pos - 1])
    } else {
        Err(TokenStreamError::OutOfBounds)
    }
}

/// The token at `pos`.
pub open spec fn peek<'a>(tokens: Seq<Token<'a>>, pos: int) -> Result<
    Token<'a>,
    TokenStreamError,
> {
    if 0 <= pos < tokens.len() {
        Ok(tokens[pos])
    } else {
        Err(TokenStreamError::OutOfBounds)
    }
}

/// The error of `context` at the token before `pos`.
pub open spec fn error_before<'a>(
    tokens: Seq<Token<'a>>,
    pos: int,
    context: ParserErrorContext,
) -> ParserError<'a> {
    match previous(tokens, pos) {
        Ok(token) => context.to_error_spec(token),
        Err(e) => ParserError::TokenStream(e),
    }
}

/// Takes the token at `pos` if it is of kind `kind`; else fails with the
/// error of `context` at the token before.
pub open spec fn consume<'a>(
    tokens: Seq<Token<'a>>,
    pos: int,
    kind: TokenType,
    context: ParserErrorContext,
) -> (Result<Token<'a>, ParserError<'a>>, int) {
    if check(tokens, pos, kind) {
        (Ok(tokens[pos]), pos + 1)
    } else {
        (Err(error_before(tokens, pos, context)), pos)
    }
}

/// Whether `kind` is an operator of the binary level `level`: 0 `or`, 1 `and`,
/// 2 equality, 3 comparison, 4 term, 5 factor.
pub open spec fn is_operator(level: int, kind: TokenType) -> bool {
    if level == 0 {
        kind == TokenType::Or
    } else if level == 1 {
        kind == TokenType::And
    } else if level == 2 {
        kind == TokenType::BangEqual || kind == TokenType::EqualEqual
    } else if level == 3 {
        kind == TokenType::Greater || kind == TokenType::GreaterEqual || kind == TokenType::Less
            || kind == TokenType::LessEqual
    } else if level == 4 {
        kind == TokenType::Minus || kind == TokenType::Plus
    } else {
        kind == TokenType::Slash || kind == TokenType::Star
    }
}

/// The node that joins two operands at the binary level `level`.
pub open spec fn join<'a>(
    level: int,
    left: ExprView<'a>,
    operator: Token<'a>,
    right: ExprView<'a>,
) -> ExprView<'a> {
    if level <= 1 {
        ExprView::Logical { left: Box::new(left), operator, right: Box::new(right) }
    } else {
        ExprView::Binary { left: Box::new(left), operator, right: Box::new(right) }
    }
}

/// The measure of a binary level in the order of the grammar's rules.
pub open spec fn level_rank(level: int) -> nat {
    if 0 <= level <= 5 {
        (28 - 2 * level) as nat
    } else {
        18
    }
}

/// expression := assignment
pub open spec fn expression<'a>(tokens: Seq<Token<'a>>, pos: int) -> (
    Result<ExprView<'a>, ParserError<'a>>,
    int,
)
    decreases remaining(tokens, pos), 30nat,
{
    assignment(tokens, pos)
}

/// assignment := ( call "." IDENT | IDENT ) "=" assignment | logic_or
pub open spec fn assignment<'a>(tokens: Seq<Token<'a>>, pos: int) -> (
    Result<ExprView<'a>, ParserError<'a>>,
    int,
)
    decreases remaining(tokens, pos), 29nat,
{
    let (target, p) = binary(tokens, pos, 0);
    let after = clip(tokens, pos, p);
    match target {
        Err(e) => (Err(e), after),
        Ok(target) => {
            if check(tokens, after, TokenType::Equal) {
                let equals = tokens[after];
                let (value, p) = assignment(tokens, after + 1);
                let end = clip(tokens, after + 1, p);
                match value {
                    Err(e) => (Err(e), end),
                    Ok(value) => match target {
                        ExprView::Variable { name } => (
                            Ok(ExprView::Assign { name, value: Box::new(value) }),
                            end,
                        ),
                        ExprView::Get { object, name } => (
                            Ok(ExprView::PropertySet { object, name, value: Box::new(value) }),
                            end,
                        ),
                        _ => (Err(ParserError::InvalidAssignmentTarget { token: equals }), end),
                    },
                }
            } else {
                (Ok(target), after)
            }
        },
    }
}

/// One binary level: an operand of the next level, then operators of this
/// level with operands of the next, joined to the left.
pub open spec fn binary<'a>(tokens: Seq<Token<'a>>, pos: int, level: int) -> (
    Result<ExprView<'a>, ParserError<'a>>,
    int,
)
    decreases remaining(tokens, pos), level_rank(level),
{
    let (left, p) = operand(tokens, pos, level);
    let after = clip(tokens, pos, p);
    match left {
        Err(e) => (Err(e), after),
        Ok(left) => binary_rest(tokens, after, level, left),
    }
}

/// An operand of the binary level `level`.
pub open spec fn operand<'a>(tokens: Seq<Token<'a>>, pos: int, level: int) -> (
    Result<ExprView<'a>, ParserError<'a>>,
    int,
)
    decreases remaining(tokens, pos), level_rank(level) - 1,
{
    if 0 <= level < 5 {
        binary(tokens, pos, level + 1)
    } else {
        unary(tokens, pos)
    }
}

/// The operators of one binary level that follow `left`.
pub open spec fn binary_rest<'a>(
    tokens: Seq<Token<'a>>,
    pos: int,
    level: int,
    left: ExprView<'a>,
) -> (Result<ExprView<'a>, ParserError<'a>>, int)
    decreases remaining(tokens, pos), level_rank(level) - 1,
{
    if !at_end(tokens, pos) && is_operator(level, tokens[pos].kind) {
        let operator = tokens[pos];
        let (right, p) = operand(tokens, pos + 1, level);
        let after = clip(tokens, pos + 1, p);
        match right {
            Err(e) => (Err(e), after),
            Ok(right) => binary_rest(tokens, after, level, join(level, left, operator, right)),
        }
    } else {
        (Ok(left), pos)
    }
}

/// unary := ("!"|"-") unary | call
pub open spec fn unary<'a>(tokens: Seq<Token<'a>>, pos: int) -> (
    Result<ExprView<'a>, ParserError<'a>>,
    int,
)
    decreases remaining(tokens, pos), 16nat,
{
    if check(tokens, pos, TokenType::Bang) || check(tokens, pos, TokenType::Minus) {
        let operator = tokens[pos];
        let (right, p) = unary(tokens, pos + 1);
        let after = clip(tokens, pos + 1, p);
        match right {
            Err(e) => (Err(e), after),
            Ok(right) => (Ok(ExprView::Unary { operator, value: Box::new(right) }), after),
        }
    } else {
        call(tokens, pos)
    }
}

/// call := primary ( "(" args? ")" | "." IDENT )*
pub open spec fn call<'a>(tokens: Seq<Token<'a>>, pos: int) -> (
    Result<ExprView<'a>, ParserError<'a>>,
    int,
)
    decreases remaining(tokens, pos), 15nat,
{
    let (callee, p) = primary(tokens, pos);
    let after = clip(tokens, pos, p);
    match callee {
        Err(e) => (Err(e), after),
        Ok(callee) => call_rest(tokens, after, callee),
    }
}

/// The calls and property accesses that follow `callee`.
pub open spec fn call_rest<'a>(tokens: Seq<Token<'a>>, pos: int, callee: ExprView<'a>) -> (
    Result<ExprView<'a>, ParserError<'a>>,
    int,
)
    decreases remaining(tokens, pos), 14nat,
{
    if check(tokens, pos, TokenType::LeftParen) {
        let (made, p) = finish_call(tokens, pos + 1, callee);
        let after = clip(tokens, pos + 1, p);
        match made {
            Err(e) => (Err(e), after),
            Ok(made) => call_rest(tokens, after, made),
        }
    } else if check(tokens, pos, TokenType::Dot) {
        let (name, after) = consume(
            tokens,
            pos + 1,
            TokenType::Ident,
            ParserErrorContext::ExpectedPropertyNameAfterDot,
        );
        match name {
            Err(e) => (Err(e), after),
            Ok(name) => call_rest(
                tokens,
                after,
                ExprView::Get { object: Box::new(callee), name },
            ),
        }
    } else {
        (Ok(callee), pos)
    }
}

/// The arguments and the closing parenthesis of a call of `callee`.
pub open spec fn finish_call<'a>(tokens: Seq<Token<'a>>, pos: int, callee: ExprView<'a>) -> (
    Result<ExprView<'a>, ParserError<'a>>,
    int,
)
    decreases remaining(tokens, pos), 36nat,
{
    let (found, after) = if check(tokens, pos, TokenType::RightParen) {
        (Ok(Seq::empty()), pos)
    } else {
        arguments(tokens, pos, Seq::empty())
    };
    let after = clip(tokens, pos, after);
    match found {
        Err(e) => (Err(e), after),
        Ok(found) => {
            let (paren, end) = consume(
                tokens,
                after,
                TokenType::RightParen,
                ParserErrorContext::ExpectedRightParenAfterArguments,
            );
            match paren {
                Err(e) => (Err(e), end),
                Ok(paren) => (
                    Ok(ExprView::Call { callee: Box::new(callee), paren, arguments: found }),
                    end,
                ),
            }
        },
    }
}

/// One or more expressions separated by commas, appended to `found`.
pub open spec fn arguments<'a>(tokens: Seq<Token<'a>>, pos: int, found: Seq<ExprView<'a>>) -> (
    Result<Seq<ExprView<'a>>, ParserError<'a>>,
    int,
)
    decreases remaining(tokens, pos), 35nat,
{
    let (argument, p) = expression(tokens, pos);
    let after = clip(tokens, pos, p);
    match argument {
        Err(e) => (Err(e), after),
        Ok(argument) => {
            if check(tokens, after, TokenType::Comma) {
                arguments(tokens, after + 1, found.push(argument))
            } else {
                (Ok(found.push(argument)), after)
            }
        },
    }
}

/// primary := "true" | "false" | "nil" | "this" | NUMBER | STRING | IDENT
///          | "(" expr ")" | "super" "." IDENT
pub open spec fn primary<'a>(tokens: Seq<Token<'a>>, pos: int) -> (
    Result<ExprView<'a>, ParserError<'a>>,
    int,
)
    decreases remaining(tokens, pos), 13nat,
{
    if !(0 <= pos < tokens.len()) {
        (Err(ParserError::TokenStream(TokenStreamError::OutOfBounds)), pos)
    } else if at_end(tokens, pos) {
        (Err(ParserError::UnexpectedEOF { token: tokens[pos] }), pos)
    } else {
        let token = tokens[pos];
        let next = pos + 1;
        match token.kind {
            TokenType::False => (Ok(ExprView::Literal { value: LiteralView::Bool(false) }), next),
            TokenType::True => (Ok(ExprView::Literal { value: LiteralView::Bool(true) }), next),
            TokenType::Nil => (Ok(ExprView::Literal { value: LiteralView::Nil }), next),
            TokenType::Number => (
                Ok(ExprView::Literal { value: LiteralView::Number(token.lexeme@) }),
                next,
            ),
            TokenType::String => (
                Ok(ExprView::Literal { value: LiteralView::String(token.lexeme@) }),
                next,
            ),
            TokenType::LeftParen => {
                let (inner, p) = expression(tokens, next);
                let after = clip(tokens, next, p);
                match inner {
                    Err(e) => (Err(e), after),
                    Ok(inner) => {
                        let (paren, end) = consume(
                            tokens,
                            after,
                            TokenType::RightParen,
                            ParserErrorContext::UnmatchedParanthesis,
                        );
                        match paren {
                            Err(e) => (Err(e), end),
                            Ok(_) => (Ok(ExprView::Grouping { value: Box::new(inner) }), end),
                        }
                    },
                }
            },
            TokenType::This => (Ok(ExprView::This { keyword: token }), next),
            TokenType::Ident => (Ok(ExprView::Variable { name: token }), next),
            TokenType::Super => {
                let (dot, after) = consume(
                    tokens,
                    next,
                    TokenType::Dot,
                    ParserErrorContext::ExpectedDotAfterSuper,
                );
                match dot {
                    Err(e) => (Err(e), after),
                    Ok(_) => {
                        let (method, end) = consume(
                            tokens,
                            after,
                            TokenType::Ident,
                            ParserErrorContext::ExpectedSuperclassMethodName,
                        );
                        match method {
                            Err(e) => (Err(e), end),
                            Ok(method) => (Ok(ExprView::Super { keyword: token, method }), end),
                        }
                    },
                }
            },
            _ => (Err(ParserError::UnexpectedToken { token }), next),
        }
    }
}

/// declaration := classDecl | funDecl | varDecl | statement
pub open spec fn declaration<'a>(tokens: Seq<Token<'a>>, pos: int) -> (
    Result<StmtView<'a>, ParserError<'a>>,
    int,
)
    decreases remaining(tokens, pos), 50nat,
{
    if check(tokens, pos, TokenType::Var) {
        var_declaration(tokens, pos + 1)
    } else if check(tokens, pos, TokenType::Class) {
        class_declaration(tokens, pos + 1)
    } else if check(tokens, pos, TokenType::Fun) {
        let (function, after) = function(
            tokens,
            pos + 1,
            ParserErrorContext::ExpectedFunctionName,
        );
        match function {
            Err(e) => (Err(e), after),
            Ok(function) => (Ok(StmtView::Function { function }), after),
        }
    } else {
        statement(tokens, pos)
    }
}

/// classDecl := "class" IDENT ("<" IDENT)? "{" function* "}", from the name on.
pub open spec fn class_declaration<'a>(tokens: Seq<Token<'a>>, pos: int) -> (
    Result<StmtView<'a>, ParserError<'a>>,
    int,
)
    decreases remaining(tokens, pos), 49nat,
{
    let (name, at1) = consume(
        tokens,
        pos,
        TokenType::Ident,
        ParserErrorContext::ExpectedClassName,
    );
    match name {
        Err(e) => (Err(e), at1),
        Ok(name) => {
            let (superclass, at2) = if check(tokens, at1, TokenType::Less) {
                let (parent, p) = consume(
                    tokens,
                    at1 + 1,
                    TokenType::Ident,
                    ParserErrorContext::ExpectedSuperclassName,
                );
                match parent {
                    Err(e) => (Err(e), p),
                    Ok(parent) => (Ok(Some(ExprView::Variable { name: parent })), p),
                }
            } else {
                (Ok(None), at1)
            };
            match superclass {
                Err(e) => (Err(e), at2),
                Ok(superclass) => {
                    let (brace, at3) = consume(
                        tokens,
                        at2,
                        TokenType::LeftBrace,
                        ParserErrorContext::ExpectedLeftBraceBeforeClassBody,
                    );
                    match brace {
                        Err(e) => (Err(e), at3),
                        Ok(_) => {
                            let (found, p) = methods(tokens, at3, Seq::empty());
                            let at4 = clip(tokens, at3, p);
                            match found {
                                Err(e) => (Err(e), at4),
                                Ok(found) => {
                                    let (close, end) = consume(
                                        tokens,
                                        at4,
                                        TokenType::RightBrace,
                                        ParserErrorContext::ExpectedRightBraceAfterClassBody,
                                    );
                                    match close {
                                        Err(e) => (Err(e), end),
                                        Ok(_) => (
                                            Ok(
                                                StmtView::Class {
                                                    name,
                                                    superclass,
                                                    methods: found,
                                                },
                                            ),
                                            end,
                                        ),
                                    }
                                },
                            }
                        },
                    }
                },
            }
        },
    }
}

/// The methods of a class body up to its closing brace, appended to `found`.
pub open spec fn methods<'a>(tokens: Seq<Token<'a>>, pos: int, found: Seq<FunctionView<'a>>) -> (
    Result<Seq<FunctionView<'a>>, ParserError<'a>>,
    int,
)
    decreases remaining(tokens, pos), 48nat,
{
    if check(tokens, pos, TokenType::RightBrace) || at_end(tokens, pos) {
        (Ok(found), pos)
    } else {
        let (method, p) = function(tokens, pos, ParserErrorContext::ExpectedMethod);
        let after = clip(tokens, pos, p);
        match method {
            Err(e) => (Err(e), after),
            Ok(method) => {
                if after > pos {
                    methods(tokens, after, found.push(method))
                } else {
                    (Ok(found.push(method)), after)
                }
            },
        }
    }
}

/// function := IDENT "(" params? ")" block
pub open spec fn function<'a>(
    tokens: Seq<Token<'a>>,
    pos: int,
    context: ParserErrorContext,
) -> (Result<FunctionView<'a>, ParserError<'a>>, int)
    decreases remaining(tokens, pos), 47nat,
{
    let (name, at1) = consume(tokens, pos, TokenType::Ident, context);
    match name {
        Err(e) => (Err(e), at1),
        Ok(name) => {
            let (paren, at2) = consume(
                tokens,
                at1,
                TokenType::LeftParen,
                ParserErrorContext::ExpectedLeftParenAfterFunctionName,
            );
            match paren {
                Err(e) => (Err(e), at2),
                Ok(_) => {
                    let (params, at3) = if check(tokens, at2, TokenType::RightParen) {
                        (Ok(Seq::empty()), at2)
                    } else {
                        parameters(tokens, at2, Seq::empty())
                    };
                    let at3 = clip(tokens, at2, at3);
                    match params {
                        Err(e) => (Err(e), at3),
                        Ok(params) => {
                            let (close, at4) = consume(
                                tokens,
                                at3,
                                TokenType::RightParen,
                                ParserErrorContext::ExpectedRightParenAfterParameters,
                            );
                            match close {
                                Err(e) => (Err(e), at4),
                                Ok(_) => {
                                    let (brace, at5) = consume(
                                        tokens,
                                        at4,
                                        TokenType::LeftBrace,
                                        ParserErrorContext::ExpectedLeftBraceBeforeFunctionBody,
                                    );
                                    match brace {
                                        Err(e) => (Err(e), at5),
                                        Ok(_) => {
                                            let (body, p) = block(tokens, at5);
                                            let end = clip(tokens, at5, p);
                                            match body {
                                                Err(e) => (Err(e), end),
                                                Ok(body) => (
                                                    Ok(FunctionView { name, params, body }),
                                                    end,
                                                ),
                                            }
                                        },
                                    }
                                },
                            }
                        },
                    }
                },
            }
        },
    }
}

/// One or more parameter names separated by commas, appended to `found`.
pub open spec fn parameters<'a>(tokens: Seq<Token<'a>>, pos: int, found: Seq<Token<'a>>) -> (
    Result<Seq<Token<'a>>, ParserError<'a>>,
    int,
)
    decreases remaining(tokens, pos), 46nat,
{
    let (name, after) = consume(
        tokens,
        pos,
        TokenType::Ident,
        ParserErrorContext::ExpectedParameterName,
    );
    match name {
        Err(e) => (Err(e), after),
        Ok(name) => {
            if check(tokens, after, TokenType::Comma) {
                parameters(tokens, after + 1, found.push(name))
            } else {
                (Ok(found.push(name)), after)
            }
        },
    }
}

/// varDecl := "var" IDENT ("=" expr)? ";", from the name on.
pub open spec fn var_declaration<'a>(tokens: Seq<Token<'a>>, pos: int) -> (
    Result<StmtView<'a>, ParserError<'a>>,
    int,
)
    decreases remaining(tokens, pos), 41nat,
{
    let (name, at1) = consume(
        tokens,
        pos,
        TokenType::Ident,
        ParserErrorContext::InvalidAssignmentTarget,
    );
    match name {
        Err(e) => (Err(e), at1),
        Ok(name) => {
            let (initializer, at2) = if check(tokens, at1, TokenType::Equal) {
                let (value, p) = expression(tokens, at1 + 1);
                match value {
                    Err(e) => (Err(e), clip(tokens, at1 + 1, p)),
                    Ok(value) => (Ok(Some(value)), clip(tokens, at1 + 1, p)),
                }
            } else {
                (Ok(None), at1)
            };
            match initializer {
                Err(e) => (Err(e), at2),
                Ok(initializer) => {
                    let (semicolon, end) = consume(
                        tokens,
                        at2,
                        TokenType::Semicolon,
                        ParserErrorContext::ExpectedSemicolon,
                    );
                    match semicolon {
                        Err(e) => (Err(e), end),
                        Ok(_) => (Ok(StmtView::Var { name, initializer }), end),
                    }
                },
            }
        },
    }
}

/// statement := exprStmt | forStmt | ifStmt | printStmt | returnStmt
///            | whileStmt | block
pub open spec fn statement<'a>(tokens: Seq<Token<'a>>, pos: int) -> (
    Result<StmtView<'a>, ParserError<'a>>,
    int,
)
    decreases remaining(tokens, pos), 44nat,
{
    if check(tokens, pos, TokenType::If) {
        if_statement(tokens, pos + 1)
    } else if check(tokens, pos, TokenType::Print) {
        print_statement(tokens, pos + 1)
    } else if check(tokens, pos, TokenType::Return) {
        return_statement(tokens, pos + 1)
    } else if check(tokens, pos, TokenType::LeftBrace) {
        let (statements, after) = block(tokens, pos + 1);
        match statements {
            Err(e) => (Err(e), after),
            Ok(statements) => (Ok(StmtView::Block { statements }), after),
        }
    } else if check(tokens, pos, TokenType::While) {
        while_statement(tokens, pos + 1)
    } else if check(tokens, pos, TokenType::For) {
        for_statement(tokens, pos + 1)
    } else {
        expression_statement(tokens, pos)
    }
}

/// A parenthesised condition: "(" expr ")", with the error of `context` where
/// the opening parenthesis is missing.
pub open spec fn condition<'a>(tokens: Seq<Token<'a>>, pos: int, context: ParserErrorContext) -> (
    Result<ExprView<'a>, ParserError<'a>>,
    int,
)
    decreases remaining(tokens, pos), 40nat,
{
    let (paren, at1) = consume(tokens, pos, TokenType::LeftParen, context);
    match paren {
        Err(e) => (Err(e), at1),
        Ok(_) => {
            let (test, p) = expression(tokens, at1);
            let at2 = clip(tokens, at1, p);
            match test {
                Err(e) => (Err(e), at2),
                Ok(test) => {
                    let (close, end) = consume(
                        tokens,
                        at2,
                        TokenType::RightParen,
                        ParserErrorContext::ExpectedRightParenAfterCondition,
                    );
                    match close {
                        Err(e) => (Err(e), end),
                        Ok(_) => (Ok(test), end),
                    }
                },
            }
        },
    }
}

/// ifStmt := "if" "(" expr ")" statement ("else" statement)?, from the
/// parenthesis on.
pub open spec fn if_statement<'a>(tokens: Seq<Token<'a>>, pos: int) -> (
    Result<StmtView<'a>, ParserError<'a>>,
    int,
)
    decreases remaining(tokens, pos), 41nat,
{
    let (test, p) = condition(tokens, pos, ParserErrorContext::ExpectedLeftParenAfterIf);
    let at1 = clip(tokens, pos, p);
    match test {
        Err(e) => (Err(e), at1),
        Ok(test) => {
            if at1 <= pos {
                (Err(ParserError::TokenStream(TokenStreamError::OutOfBounds)), at1)
            } else {
                let (then_branch, p) = statement(tokens, at1);
                let at2 = clip(tokens, at1, p);
                match then_branch {
                    Err(e) => (Err(e), at2),
                    Ok(then_branch) => {
                        if check(tokens, at2, TokenType::Else) {
                            let (else_branch, p) = statement(tokens, at2 + 1);
                            let end = clip(tokens, at2 + 1, p);
                            match else_branch {
                                Err(e) => (Err(e), end),
                                Ok(else_branch) => (
                                    Ok(
                                        StmtView::If {
                                            condition: test,
                                            then_branch: Box::new(then_branch),
                                            else_branch: Some(Box::new(else_branch)),
                                        },
                                    ),
                                    end,
                                ),
                            }
                        } else {
                            (
                                Ok(
                                    StmtView::If {
                                        condition: test,
                                        then_branch: Box::new(then_branch),
                                        else_branch: None,
                                    },
                                ),
                                at2,
                            )
                        }
                    },
                }
            }
        },
    }
}

/// block := "{" declaration* "}", from the first declaration on.
pub open spec fn block<'a>(tokens: Seq<Token<'a>>, pos: int) -> (
    Result<Seq<StmtView<'a>>, ParserError<'a>>,
    int,
)
    decreases remaining(tokens, pos), 56nat,
{
    let (found, p) = block_items(tokens, pos, Seq::empty());
    let after = clip(tokens, pos, p);
    match found {
        Err(e) => (Err(e), after),
        Ok(found) => {
            let (close, end) = consume(
                tokens,
                after,
                TokenType::RightBrace,
                ParserErrorContext::ExpectedRightBrace,
            );
            match close {
                Err(e) => (Err(e), end),
                Ok(_) => (Ok(found), end),
            }
        },
    }
}

/// The declarations of a block up to its closing brace, appended to `found`.
pub open spec fn block_items<'a>(tokens: Seq<Token<'a>>, pos: int, found: Seq<StmtView<'a>>) -> (
    Result<Seq<StmtView<'a>>, ParserError<'a>>,
    int,
)
    decreases remaining(tokens, pos), 55nat,
{
    if check(tokens, pos, TokenType::RightBrace) || at_end(tokens, pos) {
        (Ok(found), pos)
    } else {
        let (item, p) = declaration(tokens, pos);
        let after = clip(tokens, pos, p);
        match item {
            Err(e) => (Err(e), after),
            Ok(item) => {
                if after > pos {
                    block_items(tokens, after, found.push(item))
                } else {
                    (Ok(found.push(item)), after)
                }
            },
        }
    }
}

/// printStmt := "print" expr ";", from the expression on.
pub open spec fn print_statement<'a>(tokens: Seq<Token<'a>>, pos: int) -> (
    Result<StmtView<'a>, ParserError<'a>>,
    int,
)
    decreases remaining(tokens, pos), 41nat,
{
    let (value, p) = expression(tokens, pos);
    let after = clip(tokens, pos, p);
    match value {
        Err(e) => (Err(e), after),
        Ok(value) => {
            let (semicolon, end) = consume(
                tokens,
                after,
                TokenType::Semicolon,
                ParserErrorContext::ExpectedSemicolon,
            );
            match semicolon {
                Err(e) => (Err(e), end),
                Ok(_) => (Ok(StmtView::Print { expr: value }), end),
            }
        },
    }
}

/// exprStmt := expr ";"
pub open spec fn expression_statement<'a>(tokens: Seq<Token<'a>>, pos: int) -> (
    Result<StmtView<'a>, ParserError<'a>>,
    int,
)
    decreases remaining(tokens, pos), 41nat,
{
    let (value, p) = expression(tokens, pos);
    let after = clip(tokens, pos, p);
    match value {
        Err(e) => (Err(e), after),
        Ok(value) => {
            let (semicolon, end) = consume(
                tokens,
                after,
                TokenType::Semicolon,
                ParserErrorContext::ExpectedSemicolon,
            );
            match semicolon {
                Err(e) => (Err(e), end),
                Ok(_) => (Ok(StmtView::Expression { expr: value }), end),
            }
        },
    }
}

/// returnStmt := "return" expr? ";", from the value on.
pub open spec fn return_statement<'a>(tokens: Seq<Token<'a>>, pos: int) -> (
    Result<StmtView<'a>, ParserError<'a>>,
    int,
)
    decreases remaining(tokens, pos), 41nat,
{
    match previous(tokens, pos) {
        Err(e) => (Err(ParserError::TokenStream(e)), pos),
        Ok(keyword) => {
            let (value, at1) = if check(tokens, pos, TokenType::Semicolon) {
                (Ok(None), pos)
            } else {
                let (value, p) = expression(tokens, pos);
                match value {
                    Err(e) => (Err(e), clip(tokens, pos, p)),
                    Ok(value) => (Ok(Some(value)), clip(tokens, pos, p)),
                }
            };
            match value {
                Err(e) => (Err(e), at1),
                Ok(value) => {
                    let (semicolon, end) = consume(
                        tokens,
                        at1,
                        TokenType::Semicolon,
                        ParserErrorContext::ExpectedSemicolonAfterReturnValue,
                    );
                    match semicolon {
                        Err(e) => (Err(e), end),
                        Ok(_) => (Ok(StmtView::Return { keyword, value }), end),
                    }
                },
            }
        },
    }
}

/// whileStmt := "while" "(" expr ")" statement, from the parenthesis on.
pub open spec fn while_statement<'a>(tokens: Seq<Token<'a>>, pos: int) -> (
    Result<StmtView<'a>, ParserError<'a>>,
    int,
)
    decreases remaining(tokens, pos), 41nat,
{
    let (test, p) = condition(tokens, pos, ParserErrorContext::ExpectedLeftParenAfterWhile);
    let at1 = clip(tokens, pos, p);
    match test {
        Err(e) => (Err(e), at1),
        Ok(test) => {
            if at1 <= pos {
                (Err(ParserError::TokenStream(TokenStreamError::OutOfBounds)), at1)
            } else {
                let (body, p) = statement(tokens, at1);
                let end = clip(tokens, at1, p);
                match body {
                    Err(e) => (Err(e), end),
                    Ok(body) => (
                        Ok(StmtView::While { condition: test, body: Box::new(body) }),
                        end,
                    ),
                }
            }
        },
    }
}

/// The loop that a `for` statement stands for: the initializer, then a
/// `while` over the condition (`true` where there is none) whose body ends
/// with the increment.
pub open spec fn desugared_for<'a>(
    initializer: Option<StmtView<'a>>,
    test: Option<ExprView<'a>>,
    increment: Option<ExprView<'a>>,
    body: StmtView<'a>,
) -> StmtView<'a> {
    let stepped = match increment {
        Some(increment) => StmtView::Block {
            statements: seq![body, StmtView::Expression { expr: increment }],
        },
        None => body,
    };
    let looped = StmtView::While {
        condition: match test {
            Some(test) => test,
            None => ExprView::Literal { value: LiteralView::Bool(true) },
        },
        body: Box::new(stepped),
    };
    match initializer {
        Some(initializer) => StmtView::Block { statements: seq![initializer, looped] },
        None => looped,
    }
}

/// The initializer clause of a `for` statement, with its semicolon.
pub open spec fn for_initializer<'a>(tokens: Seq<Token<'a>>, pos: int) -> (
    Result<Option<StmtView<'a>>, ParserError<'a>>,
    int,
)
    decreases remaining(tokens, pos), 43nat,
{
    if check(tokens, pos, TokenType::Semicolon) {
        (Ok(None), pos + 1)
    } else {
        let (clause, p) = if check(tokens, pos, TokenType::Var) {
            var_declaration(tokens, pos + 1)
        } else {
            expression_statement(tokens, pos)
        };
        match clause {
            Err(e) => (Err(e), clip(tokens, pos, p)),
            Ok(clause) => (Ok(Some(clause)), clip(tokens, pos, p)),
        }
    }
}

/// An expression that is absent where the token at `pos` is of kind `closer`.
pub open spec fn optional_expression<'a>(tokens: Seq<Token<'a>>, pos: int, closer: TokenType) -> (
    Result<Option<ExprView<'a>>, ParserError<'a>>,
    int,
)
    decreases remaining(tokens, pos), 43nat,
{
    if check(tokens, pos, closer) {
        (Ok(None), pos)
    } else {
        let (value, p) = expression(tokens, pos);
        match value {
            Err(e) => (Err(e), clip(tokens, pos, p)),
            Ok(value) => (Ok(Some(value)), clip(tokens, pos, p)),
        }
    }
}

/// forStmt := "for" "(" (varDecl | exprStmt | ";") expr? ";" expr? ")"
/// statement, from the parenthesis on.
pub open spec fn for_statement<'a>(tokens: Seq<Token<'a>>, pos: int) -> (
    Result<StmtView<'a>, ParserError<'a>>,
    int,
)
    decreases remaining(tokens, pos), 45nat,
{
    let (paren, at1) = consume(
        tokens,
        pos,
        TokenType::LeftParen,
        ParserErrorContext::ExpectedLeftParenAfterFor,
    );
    match paren {
        Err(e) => (Err(e), at1),
        Ok(_) => {
            let (initializer, at2) = for_initializer(tokens, at1);
            match initializer {
                Err(e) => (Err(e), at2),
                Ok(initializer) => {
                    let (test, at3) = optional_expression(tokens, at2, TokenType::Semicolon);
                    match test {
                        Err(e) => (Err(e), at3),
                        Ok(test) => {
                            let (semicolon, at4) = consume(
                                tokens,
                                at3,
                                TokenType::Semicolon,
                                ParserErrorContext::ExpectedSemicolonAfterLoopCondition,
                            );
                            match semicolon {
                                Err(e) => (Err(e), at4),
                                Ok(_) => {
                                    let (increment, at5) = optional_expression(
                                        tokens,
                                        at4,
                                        TokenType::RightParen,
                                    );
                                    match increment {
                                        Err(e) => (Err(e), at5),
                                        Ok(increment) => {
                                            let (close, at6) = consume(
                                                tokens,
                                                at5,
                                                TokenType::RightParen,
                                                ParserErrorContext::ExpectedRightParenAfterForClause,
                                            );
                                            match close {
                                                Err(e) => (Err(e), at6),
                                                Ok(_) => {
                                                    if at6 <= pos {
                                                        (
                                                            Err(
                                                                ParserError::TokenStream(
                                                                    TokenStreamError::OutOfBounds,
                                                                ),
                                                            ),
                                                            at6,
                                                        )
                                                    } else {
                                                        let (body, p) = statement(tokens, at6);
                                                        let end = clip(tokens, at6, p);
                                                        match body {
                                                            Err(e) => (Err(e), end),
                                                            Ok(body) => (
                                                                Ok(
                                                                    desugared_for(
                                                                        initializer,
                                                                        test,
                                                                        increment,
                                                                        body,
                                                                    ),
                                                                ),
                                                                end,
                                                            ),
                                                        }
                                                    }
                                                },
                                            }
                                        },
                                    }
                                },
                            }
                        },
                    }
                },
            }
        },
    }
}

/// Whether a statement may begin with a token of kind `kind`.
pub open spec fn starts_statement(kind: TokenType) -> bool {
    kind == TokenType::Class || kind == TokenType::Fun || kind == TokenType::Var || kind
        == TokenType::For || kind == TokenType::If || kind == TokenType::While || kind
        == TokenType::Print || kind == TokenType::Return
}

/// Where the tokens are taken up again after a failure at `pos`: the token at
/// `pos` is dropped, then every token up to the next that may begin a
/// statement, or up to just past a semicolon.
pub open spec fn synchronize(tokens: Seq<Token>, pos: int) -> int {
    if at_end(tokens, pos) {
        pos
    } else {
        synchronize_from(tokens, pos + 1)
    }
}

/// The first position from `pos` on that follows a semicolon, begins a
/// statement or is the end.
pub open spec fn synchronize_from(tokens: Seq<Token>, pos: int) -> int
    decreases remaining(tokens, pos),
{
    if at_end(tokens, pos) {
        pos
    } else if pos > 0 && tokens[pos - 1].kind == TokenType::Semicolon {
        pos
    } else if starts_statement(tokens[pos].kind) {
        pos
    } else {
        synchronize_from(tokens, pos + 1)
    }
}

/// program := declaration* EOF, with every failure kept: the statements that
/// parsed and the errors found, each in order. After a failure the tokens are
/// taken up again at the next statement boundary.
pub open spec fn program<'a>(tokens: Seq<Token<'a>>, pos: int) -> (
    Seq<StmtView<'a>>,
    Seq<ParserError<'a>>,
)
    decreases remaining(tokens, pos),
{
    if at_end(tokens, pos) {
        (Seq::empty(), Seq::empty())
    } else {
        let (item, p) = declaration(tokens, pos);
        let after = clip(tokens, pos, p);
        match item {
            Ok(item) => {
                if after > pos {
                    let (statements, errors) = program(tokens, after);
                    (seq![item] + statements, errors)
                } else {
                    (seq![item], Seq::empty())
                }
            },
            Err(e) => {
                let resumed = clip(tokens, after, synchronize(tokens, after));
                if resumed > pos {
                    let (statements, errors) = program(tokens, resumed);
                    (statements, seq![e] + errors)
                } else {
                    (Seq::empty(), seq![e])
                }
            },
        }
    }
}

/// The outcome of parsing a whole token sequence: the statements where no
/// declaration failed, else the first error.
pub open spec fn parsed<'a>(tokens: Seq<Token<'a>>, pos: int) -> Result<
    Seq<StmtView<'a>>,
    ParserError<'a>,
> {
    let (statements, errors) = program(tokens, pos);
    if errors.len() == 0 {
        Ok(statements)
    } else {
        Err(errors[0])
    }
}

} // verus!
