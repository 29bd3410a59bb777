//! The reports on calls with too many arguments and functions with too many
//! parameters: which of them parsing makes, in order. A report fails nothing.

use vstd::prelude::*;
use crate::ast::{ExprView, FunctionView, StmtView};
use crate::lex::{Token, TokenType};
use super::error::{ParserError, ParserErrorContext};
use super::grammar::{
    arguments, at_end, binary, call, check, clip, condition, consume, declaration, expression,
    finish_call, for_initializer, function, is_operator, join, level_rank, operand,
    optional_expression, parameters, primary, program, remaining, statement, synchronize, previous,
};

verus! {

/// The most arguments a call, and the most parameters a function, may have
/// without a report.
pub open spec fn limit() -> nat {
    255
}

/// The reports so far and the report on the item that begins at `pos`,
/// where `count` items came before it: none while the count is below the
/// limit.
pub open spec fn limit_report<'a>(
    tokens: Seq<Token<'a>>,
    pos: int,
    count: nat,
    context: ParserErrorContext,
    so_far: Seq<ParserError<'a>>,
) -> Seq<ParserError<'a>> {
    if count >= limit() && 0 <= pos < tokens.len() {
        so_far.push(context.to_error_spec(tokens[pos]))
    } else {
        so_far
    }
}

/// The reports so far and those of the expression that begins at `pos`.
pub open spec fn expression_reports<'a>(
    tokens: Seq<Token<'a>>,
    pos: int,
    so_far: Seq<ParserError<'a>>,
) -> Seq<ParserError<'a>>
    decreases remaining(tokens, pos), 30nat,
{
    assignment_reports(tokens, pos, so_far)
}

pub open spec fn assignment_reports<'a>(
    tokens: Seq<Token<'a>>,
    pos: int,
    so_far: Seq<ParserError<'a>>,
) -> Seq<ParserError<'a>>
    decreases remaining(tokens, pos), 29nat,
{
    let (target, p) = binary(tokens, pos, 0);
    let after = clip(tokens, pos, p);
    let first = binary_reports(tokens, pos, 0, so_far);
    if target is Ok && check(tokens, after, TokenType::Equal) {
        assignment_reports(tokens, after + 1, first)
    } else {
        first
    }
}

pub open spec fn binary_reports<'a>(
    tokens: Seq<Token<'a>>,
    pos: int,
    level: int,
    so_far: Seq<ParserError<'a>>,
) -> Seq<ParserError<'a>>
    decreases remaining(tokens, pos), level_rank(level),
{
    let (left, p) = operand(tokens, pos, level);
    let after = clip(tokens, pos, p);
    let first = operand_reports(tokens, pos, level, so_far);
    match left {
        Ok(left) => binary_rest_reports(tokens, after, level, left, first),
        Err(_) => first,
    }
}

pub open spec fn operand_reports<'a>(
    tokens: Seq<Token<'a>>,
    pos: int,
    level: int,
    so_far: Seq<ParserError<'a>>,
) -> Seq<ParserError<'a>>
    decreases remaining(tokens, pos), level_rank(level) - 1,
{
    if 0 <= level < 5 {
        binary_reports(tokens, pos, level + 1, so_far)
    } else {
        unary_reports(tokens, pos, so_far)
    }
}

pub open spec fn binary_rest_reports<'a>(
    tokens: Seq<Token<'a>>,
    pos: int,
    level: int,
    left: ExprView<'a>,
    so_far: Seq<ParserError<'a>>,
) -> Seq<ParserError<'a>>
    decreases remaining(tokens, pos), level_rank(level) - 1,
{
    if !at_end(tokens, pos) && is_operator(level, tokens[pos].kind) {
        let (right, p) = operand(tokens, pos + 1, level);
        let after = clip(tokens, pos + 1, p);
        let first = operand_reports(tokens, pos + 1, level, so_far);
        match right {
            Ok(right) => binary_rest_reports(
                tokens,
                after,
                level,
                join(level, left, tokens[pos], right),
                first,
            ),
            Err(_) => first,
        }
    } else {
        so_far
    }
}

pub open spec fn unary_reports<'a>(
    tokens: Seq<Token<'a>>,
    pos: int,
    so_far: Seq<ParserError<'a>>,
) -> Seq<ParserError<'a>>
    decreases remaining(tokens, pos), 16nat,
{
    if check(tokens, pos, TokenType::Bang) || check(tokens, pos, TokenType::Minus) {
        unary_reports(tokens, pos + 1, so_far)
    } else {
        call_reports(tokens, pos, so_far)
    }
}

pub open spec fn call_reports<'a>(
    tokens: Seq<Token<'a>>,
    pos: int,
    so_far: Seq<ParserError<'a>>,
) -> Seq<ParserError<'a>>
    decreases remaining(tokens, pos), 15nat,
{
    let (callee, p) = primary(tokens, pos);
    let after = clip(tokens, pos, p);
    let first = primary_reports(tokens, pos, so_far);
    match callee {
        Ok(callee) => call_rest_reports(tokens, after, callee, first),
        Err(_) => first,
    }
}

pub open spec fn call_rest_reports<'a>(
    tokens: Seq<Token<'a>>,
    pos: int,
    callee: ExprView<'a>,
    so_far: Seq<ParserError<'a>>,
) -> Seq<ParserError<'a>>
    decreases remaining(tokens, pos), 14nat,
{
    if check(tokens, pos, TokenType::LeftParen) {
        let (made, p) = finish_call(tokens, pos + 1, callee);
        let after = clip(tokens, pos + 1, p);
        let first = finish_call_reports(tokens, pos + 1, so_far);
        match made {
            Ok(made) => call_rest_reports(tokens, after, made, first),
            Err(_) => first,
        }
    } else if check(tokens, pos, TokenType::Dot) {
        let (name, after) = consume(
            tokens,
            pos + 1,
            TokenType::Ident,
            ParserErrorContext::ExpectedPropertyNameAfterDot,
        );
        match name {
            Ok(name) => call_rest_reports(
                tokens,
                after,
                ExprView::Get { object: Box::new(callee), name },
                so_far,
            ),
            Err(_) => so_far,
        }
    } else {
        so_far
    }
}

pub open spec fn finish_call_reports<'a>(
    tokens: Seq<Token<'a>>,
    pos: int,
    so_far: Seq<ParserError<'a>>,
) -> Seq<ParserError<'a>>
    decreases remaining(tokens, pos), 36nat,
{
    if check(tokens, pos, TokenType::RightParen) {
        so_far
    } else {
        arguments_reports(tokens, pos, Seq::empty(), so_far)
    }
}

/// The reports so far and those of an argument list: one for each argument
/// after the first 255, at the token it begins with, and the reports of the
/// arguments.
pub open spec fn arguments_reports<'a>(
    tokens: Seq<Token<'a>>,
    pos: int,
    found: Seq<ExprView<'a>>,
    so_far: Seq<ParserError<'a>>,
) -> Seq<ParserError<'a>>
    decreases remaining(tokens, pos), 35nat,
{
    let (argument, p) = expression(tokens, pos);
    let after = clip(tokens, pos, p);
    let first = expression_reports(
        tokens,
        pos,
        limit_report(
            tokens,
            pos,
            found.len(),
            ParserErrorContext::TooManyFunctionArguments,
            so_far,
        ),
    );
    match argument {
        Ok(argument) => if check(tokens, after, TokenType::Comma) {
            arguments_reports(tokens, after + 1, found.push(argument), first)
        } else {
            first
        },
        Err(_) => first,
    }
}

pub open spec fn primary_reports<'a>(
    tokens: Seq<Token<'a>>,
    pos: int,
    so_far: Seq<ParserError<'a>>,
) -> Seq<ParserError<'a>>
    decreases remaining(tokens, pos), 13nat,
{
    if 0 <= pos < tokens.len() && !at_end(tokens, pos) && tokens[pos].kind
        == TokenType::LeftParen {
        expression_reports(tokens, pos + 1, so_far)
    } else {
        so_far
    }
}

pub open spec fn declaration_reports<'a>(
    tokens: Seq<Token<'a>>,
    pos: int,
    so_far: Seq<ParserError<'a>>,
) -> Seq<ParserError<'a>>
    decreases remaining(tokens, pos), 50nat,
{
    if check(tokens, pos, TokenType::Var) {
        var_declaration_reports(tokens, pos + 1, so_far)
    } else if check(tokens, pos, TokenType::Class) {
        class_declaration_reports(tokens, pos + 1, so_far)
    } else if check(tokens, pos, TokenType::Fun) {
        function_reports(tokens, pos + 1, ParserErrorContext::ExpectedFunctionName, so_far)
    } else {
        statement_reports(tokens, pos, so_far)
    }
}

pub open spec fn class_declaration_reports<'a>(
    tokens: Seq<Token<'a>>,
    pos: int,
    so_far: Seq<ParserError<'a>>,
) -> Seq<ParserError<'a>>
    decreases remaining(tokens, pos), 49nat,
{
    let (name, at1) = consume(tokens, pos, TokenType::Ident, ParserErrorContext::ExpectedClassName);
    let (parent, at2) = if check(tokens, at1, TokenType::Less) {
        consume(tokens, at1 + 1, TokenType::Ident, ParserErrorContext::ExpectedSuperclassName)
    } else {
        (name, at1)
    };
    let (brace, at3) = consume(
        tokens,
        at2,
        TokenType::LeftBrace,
        ParserErrorContext::ExpectedLeftBraceBeforeClassBody,
    );
    if name is Ok && parent is Ok && brace is Ok {
        methods_reports(tokens, at3, Seq::empty(), so_far)
    } else {
        so_far
    }
}

pub open spec fn methods_reports<'a>(
    tokens: Seq<Token<'a>>,
    pos: int,
    found: Seq<FunctionView<'a>>,
    so_far: Seq<ParserError<'a>>,
) -> Seq<ParserError<'a>>
    decreases remaining(tokens, pos), 48nat,
{
    if check(tokens, pos, TokenType::RightBrace) || at_end(tokens, pos) {
        so_far
    } else {
        let (method, p) = function(tokens, pos, ParserErrorContext::ExpectedMethod);
        let after = clip(tokens, pos, p);
        let first = function_reports(tokens, pos, ParserErrorContext::ExpectedMethod, so_far);
        match method {
            Ok(method) => if after > pos {
                methods_reports(tokens, after, found.push(method), first)
            } else {
                first
            },
            Err(_) => first,
        }
    }
}

pub open spec fn function_reports<'a>(
    tokens: Seq<Token<'a>>,
    pos: int,
    context: ParserErrorContext,
    so_far: Seq<ParserError<'a>>,
) -> Seq<ParserError<'a>>
    decreases remaining(tokens, pos), 47nat,
{
    let (name, at1) = consume(tokens, pos, TokenType::Ident, context);
    let (paren, at2) = consume(
        tokens,
        at1,
        TokenType::LeftParen,
        ParserErrorContext::ExpectedLeftParenAfterFunctionName,
    );
    if name is Ok && paren is Ok {
        let (params, p) = if check(tokens, at2, TokenType::RightParen) {
            (Ok(Seq::empty()), at2)
        } else {
            parameters(tokens, at2, Seq::empty())
        };
        let at3 = clip(tokens, at2, p);
        let (close, at4) = consume(
            tokens,
            at3,
            TokenType::RightParen,
            ParserErrorContext::ExpectedRightParenAfterParameters,
        );
        let (brace, at5) = consume(
            tokens,
            at4,
            TokenType::LeftBrace,
            ParserErrorContext::ExpectedLeftBraceBeforeFunctionBody,
        );
        let first = if check(tokens, at2, TokenType::RightParen) {
            so_far
        } else {
            parameters_reports(tokens, at2, Seq::empty(), so_far)
        };
        if params is Ok && close is Ok && brace is Ok {
            block_reports(tokens, at5, first)
        } else {
            first
        }
    } else {
        so_far
    }
}

/// The reports so far and those of a parameter list: one for each parameter
/// after the first 255, at its name.
pub open spec fn parameters_reports<'a>(
    tokens: Seq<Token<'a>>,
    pos: int,
    found: Seq<Token<'a>>,
    so_far: Seq<ParserError<'a>>,
) -> Seq<ParserError<'a>>
    decreases remaining(tokens, pos), 46nat,
{
    let (name, after) = consume(
        tokens,
        pos,
        TokenType::Ident,
        ParserErrorContext::ExpectedParameterName,
    );
    let first = limit_report(
        tokens,
        pos,
        found.len(),
        ParserErrorContext::TooManyFunctionParameters,
        so_far,
    );
    match name {
        Ok(name) => if check(tokens, after, TokenType::Comma) {
            parameters_reports(tokens, after + 1, found.push(name), first)
        } else {
            first
        },
        Err(_) => first,
    }
}

pub open spec fn var_declaration_reports<'a>(
    tokens: Seq<Token<'a>>,
    pos: int,
    so_far: Seq<ParserError<'a>>,
) -> Seq<ParserError<'a>>
    decreases remaining(tokens, pos), 41nat,
{
    let (name, at1) = consume(
        tokens,
        pos,
        TokenType::Ident,
        ParserErrorContext::InvalidAssignmentTarget,
    );
    if name is Ok && check(tokens, at1, TokenType::Equal) {
        expression_reports(tokens, at1 + 1, so_far)
    } else {
        so_far
    }
}

pub open spec fn statement_reports<'a>(
    tokens: Seq<Token<'a>>,
    pos: int,
    so_far: Seq<ParserError<'a>>,
) -> Seq<ParserError<'a>>
    decreases remaining(tokens, pos), 44nat,
{
    if check(tokens, pos, TokenType::If) {
        if_statement_reports(tokens, pos + 1, so_far)
    } else if check(tokens, pos, TokenType::Print) {
        expression_reports(tokens, pos + 1, so_far)
    } else if check(tokens, pos, TokenType::Return) {
        return_statement_reports(tokens, pos + 1, so_far)
    } else if check(tokens, pos, TokenType::LeftBrace) {
        block_reports(tokens, pos + 1, so_far)
    } else if check(tokens, pos, TokenType::While) {
        while_statement_reports(tokens, pos + 1, so_far)
    } else if check(tokens, pos, TokenType::For) {
        for_statement_reports(tokens, pos + 1, so_far)
    } else {
        expression_reports(tokens, pos, so_far)
    }
}

pub open spec fn condition_reports<'a>(
    tokens: Seq<Token<'a>>,
    pos: int,
    context: ParserErrorContext,
    so_far: Seq<ParserError<'a>>,
) -> Seq<ParserError<'a>>
    decreases remaining(tokens, pos), 40nat,
{
    let (paren, at1) = consume(tokens, pos, TokenType::LeftParen, context);
    if paren is Ok {
        expression_reports(tokens, at1, so_far)
    } else {
        so_far
    }
}

pub open spec fn if_statement_reports<'a>(
    tokens: Seq<Token<'a>>,
    pos: int,
    so_far: Seq<ParserError<'a>>,
) -> Seq<ParserError<'a>>
    decreases remaining(tokens, pos), 41nat,
{
    let (test, p) = condition(tokens, pos, ParserErrorContext::ExpectedLeftParenAfterIf);
    let at1 = clip(tokens, pos, p);
    let first = condition_reports(
        tokens,
        pos,
        ParserErrorContext::ExpectedLeftParenAfterIf,
        so_far,
    );
    if test is Ok && at1 > pos {
        let (then_branch, p) = statement(tokens, at1);
        let at2 = clip(tokens, at1, p);
        let second = statement_reports(tokens, at1, first);
        if then_branch is Ok && check(tokens, at2, TokenType::Else) {
            statement_reports(tokens, at2 + 1, second)
        } else {
            second
        }
    } else {
        first
    }
}

pub open spec fn block_reports<'a>(
    tokens: Seq<Token<'a>>,
    pos: int,
    so_far: Seq<ParserError<'a>>,
) -> Seq<ParserError<'a>>
    decreases remaining(tokens, pos), 56nat,
{
    block_items_reports(tokens, pos, Seq::empty(), so_far)
}

pub open spec fn block_items_reports<'a>(
    tokens: Seq<Token<'a>>,
    pos: int,
    found: Seq<StmtView<'a>>,
    so_far: Seq<ParserError<'a>>,
) -> Seq<ParserError<'a>>
    decreases remaining(tokens, pos), 55nat,
{
    if check(tokens, pos, TokenType::RightBrace) || at_end(tokens, pos) {
        so_far
    } else {
        let (item, p) = declaration(tokens, pos);
        let after = clip(tokens, pos, p);
        let first = declaration_reports(tokens, pos, so_far);
        match item {
            Ok(item) => if after > pos {
                block_items_reports(tokens, after, found.push(item), first)
            } else {
                first
            },
            Err(_) => first,
        }
    }
}

pub open spec fn return_statement_reports<'a>(
    tokens: Seq<Token<'a>>,
    pos: int,
    so_far: Seq<ParserError<'a>>,
) -> Seq<ParserError<'a>>
    decreases remaining(tokens, pos), 41nat,
{
    if previous(tokens, pos) is Ok && !check(tokens, pos, TokenType::Semicolon) {
        expression_reports(tokens, pos, so_far)
    } else {
        so_far
    }
}

pub open spec fn while_statement_reports<'a>(
    tokens: Seq<Token<'a>>,
    pos: int,
    so_far: Seq<ParserError<'a>>,
) -> Seq<ParserError<'a>>
    decreases remaining(tokens, pos), 41nat,
{
    let (test, p) = condition(tokens, pos, ParserErrorContext::ExpectedLeftParenAfterWhile);
    let at1 = clip(tokens, pos, p);
    let first = condition_reports(
        tokens,
        pos,
        ParserErrorContext::ExpectedLeftParenAfterWhile,
        so_far,
    );
    if test is Ok && at1 > pos {
        statement_reports(tokens, at1, first)
    } else {
        first
    }
}

pub open spec fn for_initializer_reports<'a>(
    tokens: Seq<Token<'a>>,
    pos: int,
    so_far: Seq<ParserError<'a>>,
) -> Seq<ParserError<'a>>
    decreases remaining(tokens, pos), 43nat,
{
    if check(tokens, pos, TokenType::Semicolon) {
        so_far
    } else if check(tokens, pos, TokenType::Var) {
        var_declaration_reports(tokens, pos + 1, so_far)
    } else {
        expression_reports(tokens, pos, so_far)
    }
}

pub open spec fn optional_expression_reports<'a>(
    tokens: Seq<Token<'a>>,
    pos: int,
    closer: TokenType,
    so_far: Seq<ParserError<'a>>,
) -> Seq<ParserError<'a>>
    decreases remaining(tokens, pos), 43nat,
{
    if check(tokens, pos, closer) {
        so_far
    } else {
        expression_reports(tokens, pos, so_far)
    }
}

pub open spec fn for_statement_reports<'a>(
    tokens: Seq<Token<'a>>,
    pos: int,
    so_far: Seq<ParserError<'a>>,
) -> Seq<ParserError<'a>>
    decreases remaining(tokens, pos), 45nat,
{
    let (paren, at1) = consume(
        tokens,
        pos,
        TokenType::LeftParen,
        ParserErrorContext::ExpectedLeftParenAfterFor,
    );
    if paren is Ok {
        let (initializer, at2) = for_initializer(tokens, at1);
        let first = for_initializer_reports(tokens, at1, so_far);
        if initializer is Ok {
            let (test, at3) = optional_expression(tokens, at2, TokenType::Semicolon);
            let (semicolon, at4) = consume(
                tokens,
                at3,
                TokenType::Semicolon,
                ParserErrorContext::ExpectedSemicolonAfterLoopCondition,
            );
            let second = optional_expression_reports(tokens, at2, TokenType::Semicolon, first);
            if test is Ok && semicolon is Ok {
                let (increment, at5) = optional_expression(tokens, at4, TokenType::RightParen);
                let (close, at6) = consume(
                    tokens,
                    at5,
                    TokenType::RightParen,
                    ParserErrorContext::ExpectedRightParenAfterForClause,
                );
                let third = optional_expression_reports(
                    tokens,
                    at4,
                    TokenType::RightParen,
                    second,
                );
                if increment is Ok && close is Ok && at6 > pos {
                    statement_reports(tokens, at6, third)
                } else {
                    third
                }
            } else {
                second
            }
        } else {
            first
        }
    } else {
        so_far
    }
}

/// The reports so far and those of a whole program, in order.
pub open spec fn program_reports<'a>(
    tokens: Seq<Token<'a>>,
    pos: int,
    so_far: Seq<ParserError<'a>>,
) -> Seq<ParserError<'a>>
    decreases remaining(tokens, pos),
{
    if at_end(tokens, pos) {
        so_far
    } else {
        let (item, p) = declaration(tokens, pos);
        let after = clip(tokens, pos, p);
        let next = match item {
            Ok(_) => after,
            Err(_) => clip(tokens, after, synchronize(tokens, after)),
        };
        let first = declaration_reports(tokens, pos, so_far);
        if next > pos {
            program_reports(tokens, next, first)
        } else {
            first
        }
    }
}

} // verus!
