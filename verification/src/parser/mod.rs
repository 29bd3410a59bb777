//! The recursive-descent parser.

pub mod error;
pub mod grammar;
pub mod keys;
pub mod limits;
pub mod neatness;
pub mod precedence;

use vstd::prelude::*;
use vstd::string::*;
use crate::ast::{
    expr_view, exprs_view, function_view, functions_view, lemma_exprs_view_push,
    lemma_functions_view_push, lemma_stmts_view_push, lemma_views_empty, stmt_view, stmts_view,
    Expr, ExprAssign, ExprBinary, ExprCall, ExprGet, ExprGrouping, ExprLiteral, ExprLogical,
    ExprSet, ExprSuper, ExprThis, ExprUnary, ExprVariable, ExprView, FunctionView, LiteralValue,
    Stmt, StmtBlock, StmtClass, StmtExpression, StmtFunction, StmtIf, StmtPrint, StmtReturn,
    StmtVar, StmtView, StmtWhile,
};
use crate::lex::{Token, TokenType};
use error::{ParserError, ParserErrorContext, TokenStreamError};
use grammar::remaining;

verus! {

/// A token list with a reading position.
pub struct TokenStream<'a> {
    tokens: Vec<Token<'a>>,
    position: usize,
}

impl<'a> TokenStream<'a> {
    /// The tokens.
    pub closed spec fn tokens(&self) -> Seq<Token<'a>> {
        self.tokens@
    }

    /// The reading position.
    pub closed spec fn position(&self) -> int {
        self.position as int
    }

    /// The position lies within the tokens or at their end.
    pub closed spec fn wf(&self) -> bool {
        self.position <= self.tokens@.len() <= usize::MAX
    }

    pub fn new(tokens: Vec<Token<'a>>) -> (stream: Self)
        ensures
            stream.wf(),
            stream.tokens() == tokens@,
            stream.position() == 0,
    {
        let _ = tokens.len();
        Self { tokens, position: 0 }
    }

    /// The token at the position.
    pub fn peek(&self) -> (token: Result<&Token<'a>, TokenStreamError>)
        ensures
            match token {
                Ok(t) => grammar::peek(self.tokens(), self.position()) == Ok::<
                    Token<'a>,
                    TokenStreamError,
                >(*t),
                Err(e) => grammar::peek(self.tokens(), self.position()) == Err::<
                    Token<'a>,
                    TokenStreamError,
                >(e),
            },
    {
        if self.position >= self.tokens.len() {
            return Err(TokenStreamError::OutOfBounds);
        }
        Ok(&self.tokens[self.position])
    }

    /// Whether the position holds no token or the `EOF` token.
    pub fn is_at_end(&self) -> (end: bool)
        ensures
            end == grammar::at_end(self.tokens(), self.position()),
    {
        self.position >= self.tokens.len() || self.tokens[self.position].kind == TokenType::EOF
    }

    /// The token before the position.
    pub fn previous(&self) -> (token: Result<Token<'a>, TokenStreamError>)
        ensures
            token == grammar::previous(self.tokens(), self.position()),
    {
        if self.position == 0 || self.position > self.tokens.len() {
            return Err(TokenStreamError::OutOfBounds);
        }
        Ok(self.tokens[self.position - 1])
    }

    /// Moves past the token at the position, unless it is the end, and gives
    /// the token before the new position.
    pub fn advance(&mut self) -> (token: Result<Token<'a>, TokenStreamError>)
        requires
            old(self).wf(),
        ensures
            final(self).wf(),
            final(self).tokens() == old(self).tokens(),
            final(self).position() == grammar::advanced(old(self).tokens(), old(self).position()),
            token == grammar::previous(final(self).tokens(), final(self).position()),
    {
        if !self.is_at_end() {
            self.position += 1;
        }
        self.previous()
    }

    /// Whether the token at the position is of kind `kind` and not the end.
    pub fn check(&self, kind: &TokenType) -> (found: bool)
        ensures
            found == grammar::check(self.tokens(), self.position(), *kind),
    {
        if self.is_at_end() {
            return false;
        }
        self.tokens[self.position].kind == *kind
    }

    /// Moves past the token at the position if its kind is one of `kinds`.
    pub fn match_l(&mut self, kinds: &[TokenType]) -> (matched: bool)
        requires
            old(self).wf(),
        ensures
            final(self).wf(),
            final(self).tokens() == old(self).tokens(),
            matched == exists|i: int|
                0 <= i < kinds@.len() && grammar::check(
                    old(self).tokens(),
                    old(self).position(),
                    #[trigger] kinds@[i],
                ),
            final(self).position() == old(self).position() + if matched {
                1int
            } else {
                0int
            },
    {
        let mut i: usize = 0;
        while i < kinds.len()
            invariant
                i <= kinds@.len(),
                self.wf(),
                *self == *old(self),
                forall|j: int|
                    0 <= j < i ==> !grammar::check(
                        self.tokens(),
                        self.position(),
                        #[trigger] kinds@[j],
                    ),
            decreases kinds@.len() - i,
        {
            if self.check(&kinds[i]) {
                self.position += 1;
                return true;
            }
            i += 1;
        }
        false
    }

    /// Takes the token at the position if it is of kind `kind`; else fails
    /// with the error of `error_context` at the token before.
    pub fn consume(&mut self, kind: &TokenType, error_context: ParserErrorContext) -> (token:
        Result<Token<'a>, ParserError<'a>>)
        requires
            old(self).wf(),
        ensures
            final(self).wf(),
            final(self).tokens() == old(self).tokens(),
            (token, final(self).position()) == grammar::consume(
                old(self).tokens(),
                old(self).position(),
                *kind,
                error_context,
            ),
    {
        if self.check(kind) {
            let token = self.tokens[self.position];
            self.position += 1;
            return Ok(token);
        }
        match self.previous() {
            Ok(before) => Err(error_context.to_error(before)),
            Err(e) => Err(ParserError::TokenStream(e)),
        }
    }
}

/// The outcome of parsing an expression, with the tree as its view.
pub open spec fn expr_outcome<'a>(outcome: Result<Expr<'a>, ParserError<'a>>) -> Result<
    ExprView<'a>,
    ParserError<'a>,
> {
    match outcome {
        Ok(e) => Ok(expr_view(e)),
        Err(e) => Err(e),
    }
}

/// The outcome of parsing a statement, with the tree as its view.
pub open spec fn stmt_outcome<'a>(outcome: Result<Stmt<'a>, ParserError<'a>>) -> Result<
    StmtView<'a>,
    ParserError<'a>,
> {
    match outcome {
        Ok(s) => Ok(stmt_view(s)),
        Err(e) => Err(e),
    }
}

/// The outcome of parsing a list of statements, with the trees as their views.
pub open spec fn stmts_outcome<'a>(outcome: Result<Vec<Stmt<'a>>, ParserError<'a>>) -> Result<
    Seq<StmtView<'a>>,
    ParserError<'a>,
> {
    match outcome {
        Ok(s) => Ok(stmts_view(s@)),
        Err(e) => Err(e),
    }
}

/// The outcome of parsing a function declaration, with the tree as its view.
pub open spec fn function_outcome<'a>(
    outcome: Result<StmtFunction<'a>, ParserError<'a>>,
) -> Result<FunctionView<'a>, ParserError<'a>> {
    match outcome {
        Ok(f) => Ok(function_view(f)),
        Err(e) => Err(e),
    }
}

/// The view of an optional outcome.
pub open spec fn optional_expr_outcome<'a>(
    outcome: Result<Option<Expr<'a>>, ParserError<'a>>,
) -> Result<Option<ExprView<'a>>, ParserError<'a>> {
    match outcome {
        Ok(Some(e)) => Ok(Some(expr_view(e))),
        Ok(None) => Ok(None),
        Err(e) => Err(e),
    }
}

/// Builds the syntax tree of a token list.
pub struct Parser<'a> {
    tokenstream: TokenStream<'a>,
    errors: Vec<ParserError<'a>>,
    reports: Vec<ParserError<'a>>,
}

/// The most arguments a call, and the most parameters a function, may have.
pub const MAX_ARITY: usize = 255;

impl<'a> Parser<'a> {
    /// The tokens.
    pub closed spec fn tokens(&self) -> Seq<Token<'a>> {
        self.tokenstream.tokens()
    }

    /// The reading position.
    pub closed spec fn position(&self) -> int {
        self.tokenstream.position()
    }

    /// The errors found so far, in order.
    pub closed spec fn errors(&self) -> Seq<ParserError<'a>> {
        self.errors@
    }

    /// The reports on calls with too many arguments and functions with too
    /// many parameters made so far, in order.
    pub closed spec fn reports(&self) -> Seq<ParserError<'a>> {
        self.reports@
    }

    /// The position lies within the tokens or at their end.
    pub closed spec fn wf(&self) -> bool {
        self.tokenstream.wf()
    }

    /// Whether `after` is this parser further along the same tokens, with
    /// the same errors.
    pub open spec fn moved_to(&self, after: &Self) -> bool {
        &&& after.wf()
        &&& after.tokens() == self.tokens()
        &&& after.errors() == self.errors()
        &&& self.position() <= after.position() <= self.tokens().len()
    }

    pub fn new(tokenstream: TokenStream<'a>) -> (parser: Self)
        requires
            tokenstream.wf(),
        ensures
            parser.wf(),
            parser.tokens() == tokenstream.tokens(),
            parser.position() == tokenstream.position(),
            parser.errors() == Seq::<ParserError<'a>>::empty(),
            parser.reports() == Seq::<ParserError<'a>>::empty(),
    {
        Self { tokenstream, errors: Vec::new(), reports: Vec::new() }
    }

    /// Notes that a call or a declaration has more than `MAX_ARITY` items.
    fn report_limit(&mut self, count: usize, context: ParserErrorContext)
        requires
            old(self).wf(),
        ensures
            old(self).moved_to(final(self)),
            final(self).position() == old(self).position(),
            final(self).reports() == limits::limit_report(
                old(self).tokens(),
                old(self).position(),
                count as nat,
                context,
                old(self).reports(),
            ),
    {
        if count >= MAX_ARITY {
            if let Ok(token) = self.tokenstream.peek() {
                let token = *token;
                self.reports.push(context.to_error(token));
            }
        }
    }

    /// expression := assignment
    fn expression(&mut self) -> (outcome: Result<Expr<'a>, ParserError<'a>>)
        requires
            old(self).wf(),
        ensures
            old(self).moved_to(final(self)),
            final(self).reports() == limits::expression_reports(old(self).tokens(), old(self).position(), old(self).reports()),
            (expr_outcome(outcome), final(self).position()) == grammar::expression(
                old(self).tokens(),
                old(self).position(),
            ),
            outcome is Ok ==> final(self).position() > old(self).position(),
        decreases remaining(old(self).tokens(), old(self).position()), 30nat,
    {
        self.assignment()
    }

    /// assignment := ( call "." IDENT | IDENT ) "=" assignment | logic_or
    fn assignment(&mut self) -> (outcome: Result<Expr<'a>, ParserError<'a>>)
        requires
            old(self).wf(),
        ensures
            old(self).moved_to(final(self)),
            final(self).reports() == limits::assignment_reports(old(self).tokens(), old(self).position(), old(self).reports()),
            (expr_outcome(outcome), final(self).position()) == grammar::assignment(
                old(self).tokens(),
                old(self).position(),
            ),
            outcome is Ok ==> final(self).position() > old(self).position(),
        decreases remaining(old(self).tokens(), old(self).position()), 29nat,
    {
        let target = match self.or() {
            Ok(target) => target,
            Err(e) => {
                return Err(e);
            },
        };
        if self.tokenstream.check(&TokenType::Equal) {
            let equals = self.tokenstream.tokens[self.tokenstream.position];
            self.tokenstream.position += 1;
            let value = match self.assignment() {
                Ok(value) => value,
                Err(e) => {
                    return Err(e);
                },
            };
            return match target {
                Expr::Variable(variable) => Ok(
                    Expr::Assign(ExprAssign { name: variable.name, value: Box::new(value) }),
                ),
                Expr::Get(get) => Ok(
                    Expr::PropertySet(
                        ExprSet { object: get.object, name: get.name, value: Box::new(value) },
                    ),
                ),
                _ => Err(ParserError::InvalidAssignmentTarget { token: equals }),
            };
        }
        Ok(target)
    }

    /// logic_or := logic_and ( "or" logic_and )*
    fn or(&mut self) -> (outcome: Result<Expr<'a>, ParserError<'a>>)
        requires
            old(self).wf(),
        ensures
            old(self).moved_to(final(self)),
            final(self).reports() == limits::binary_reports(old(self).tokens(), old(self).position(), 0, old(self).reports()),
            (expr_outcome(outcome), final(self).position()) == grammar::binary(
                old(self).tokens(),
                old(self).position(),
                0,
            ),
            outcome is Ok ==> final(self).position() > old(self).position(),
        decreases remaining(old(self).tokens(), old(self).position()), 28nat, 1nat,
    {
        self.binary(0)
    }

    /// One binary level: an operand of the next level, then operators of
    /// this level with operands of the next, joined to the left.
    fn binary(&mut self, level: u8) -> (outcome: Result<Expr<'a>, ParserError<'a>>)
        requires
            old(self).wf(),
            level <= 5,
        ensures
            old(self).moved_to(final(self)),
            final(self).reports() == limits::binary_reports(old(self).tokens(), old(self).position(), level as int, old(self).reports()),
            (expr_outcome(outcome), final(self).position()) == grammar::binary(
                old(self).tokens(),
                old(self).position(),
                level as int,
            ),
            outcome is Ok ==> final(self).position() > old(self).position(),
        decreases remaining(old(self).tokens(), old(self).position()), grammar::level_rank(
            level as int,
        ), 0nat,
    {
        let ghost tokens = self.tokens();
        let ghost start = self.position();
        let mut left = match self.operand(level) {
            Ok(left) => left,
            Err(e) => {
                return Err(e);
            },
        };
        let ghost first = self.position();
        let ghost first_left = expr_view(left);
        let ghost first_reports = self.reports();
        loop
            invariant
                old(self).moved_to(self),
                tokens == old(self).tokens(),
                start == old(self).position(),
                level <= 5,
                start < first <= self.position(),
                first_reports == limits::operand_reports(
                    tokens,
                    start,
                    level as int,
                    old(self).reports(),
                ),
                limits::binary_rest_reports(
                    tokens,
                    self.position(),
                    level as int,
                    expr_view(left),
                    self.reports(),
                ) == limits::binary_rest_reports(
                    tokens,
                    first,
                    level as int,
                    first_left,
                    first_reports,
                ),
                grammar::operand(tokens, start, level as int) == (
                    Ok::<ExprView<'a>, ParserError<'a>>(first_left),
                    first,
                ),
                grammar::binary_rest(tokens, self.position(), level as int, expr_view(left))
                    == grammar::binary_rest(tokens, first, level as int, first_left),
            decreases remaining(tokens, self.position()),
        {
            if self.tokenstream.is_at_end() {
                return Ok(left);
            }
            let operator = self.tokenstream.tokens[self.tokenstream.position];
            if !is_level_operator(level, operator.kind) {
                return Ok(left);
            }
            self.tokenstream.position += 1;
            let right = match self.operand(level) {
                Ok(right) => right,
                Err(e) => {
                    return Err(e);
                },
            };
            left = join_operands(level, left, operator, right);
        }
    }

    /// An operand of the binary level `level`.
    fn operand(&mut self, level: u8) -> (outcome: Result<Expr<'a>, ParserError<'a>>)
        requires
            old(self).wf(),
            level <= 5,
        ensures
            old(self).moved_to(final(self)),
            final(self).reports() == limits::operand_reports(old(self).tokens(), old(self).position(), level as int, old(self).reports()),
            (expr_outcome(outcome), final(self).position()) == grammar::operand(
                old(self).tokens(),
                old(self).position(),
                level as int,
            ),
            outcome is Ok ==> final(self).position() > old(self).position(),
        decreases remaining(old(self).tokens(), old(self).position()), grammar::level_rank(
            level as int,
        ) - 1, 0nat,
    {
        if level < 5 {
            self.binary(level + 1)
        } else {
            self.unary()
        }
    }

    /// unary := ("!"|"-") unary | call
    fn unary(&mut self) -> (outcome: Result<Expr<'a>, ParserError<'a>>)
        requires
            old(self).wf(),
        ensures
            old(self).moved_to(final(self)),
            final(self).reports() == limits::unary_reports(old(self).tokens(), old(self).position(), old(self).reports()),
            (expr_outcome(outcome), final(self).position()) == grammar::unary(
                old(self).tokens(),
                old(self).position(),
            ),
            outcome is Ok ==> final(self).position() > old(self).position(),
        decreases remaining(old(self).tokens(), old(self).position()), 16nat,
    {
        if self.tokenstream.check(&TokenType::Bang) || self.tokenstream.check(&TokenType::Minus) {
            let operator = self.tokenstream.tokens[self.tokenstream.position];
            self.tokenstream.position += 1;
            return match self.unary() {
                Ok(right) => Ok(Expr::Unary(ExprUnary { operator, value: Box::new(right) })),
                Err(e) => Err(e),
            };
        }
        self.call()
    }

    /// call := primary ( "(" args? ")" | "." IDENT )*
    fn call(&mut self) -> (outcome: Result<Expr<'a>, ParserError<'a>>)
        requires
            old(self).wf(),
        ensures
            old(self).moved_to(final(self)),
            final(self).reports() == limits::call_reports(old(self).tokens(), old(self).position(), old(self).reports()),
            (expr_outcome(outcome), final(self).position()) == grammar::call(
                old(self).tokens(),
                old(self).position(),
            ),
            outcome is Ok ==> final(self).position() > old(self).position(),
        decreases remaining(old(self).tokens(), old(self).position()), 15nat,
    {
        let ghost tokens = self.tokens();
        let ghost start = self.position();
        let mut expr = match self.primary() {
            Ok(expr) => expr,
            Err(e) => {
                return Err(e);
            },
        };
        let ghost first = self.position();
        let ghost first_expr = expr_view(expr);
        let ghost first_reports = self.reports();
        loop
            invariant
                old(self).moved_to(self),
                tokens == old(self).tokens(),
                start == old(self).position(),
                start < first <= self.position(),
                first_reports == limits::primary_reports(tokens, start, old(self).reports()),
                limits::call_rest_reports(
                    tokens,
                    self.position(),
                    expr_view(expr),
                    self.reports(),
                ) == limits::call_rest_reports(tokens, first, first_expr, first_reports),
                grammar::primary(tokens, start) == (
                    Ok::<ExprView<'a>, ParserError<'a>>(first_expr),
                    first,
                ),
                grammar::call_rest(tokens, self.position(), expr_view(expr)) == grammar::call_rest(
                    tokens,
                    first,
                    first_expr,
                ),
            decreases remaining(tokens, self.position()),
        {
            if self.tokenstream.check(&TokenType::LeftParen) {
                self.tokenstream.position += 1;
                expr = match self.finish_call(expr) {
                    Ok(made) => made,
                    Err(e) => {
                        return Err(e);
                    },
                };
            } else if self.tokenstream.check(&TokenType::Dot) {
                self.tokenstream.position += 1;
                let name = match self.tokenstream.consume(
                    &TokenType::Ident,
                    ParserErrorContext::ExpectedPropertyNameAfterDot,
                ) {
                    Ok(name) => name,
                    Err(e) => {
                        return Err(e);
                    },
                };
                expr = Expr::Get(ExprGet { object: Box::new(expr), name });
            } else {
                return Ok(expr);
            }
        }
    }

    /// The arguments and the closing parenthesis of a call of `callee`.
    fn finish_call(&mut self, callee: Expr<'a>) -> (outcome: Result<Expr<'a>, ParserError<'a>>)
        requires
            old(self).wf(),
        ensures
            old(self).moved_to(final(self)),
            final(self).reports() == limits::finish_call_reports(old(self).tokens(), old(self).position(), old(self).reports()),
            (expr_outcome(outcome), final(self).position()) == grammar::finish_call(
                old(self).tokens(),
                old(self).position(),
                expr_view(callee),
            ),
            outcome is Ok ==> final(self).position() > old(self).position(),
        decreases remaining(old(self).tokens(), old(self).position()), 36nat,
    {
        let ghost tokens = self.tokens();
        let ghost start = self.position();
        let mut arguments: Vec<Expr<'a>> = Vec::new();
        proof {
            lemma_views_empty();
        }
        if !self.tokenstream.check(&TokenType::RightParen) {
            loop
                invariant_except_break
                    grammar::arguments(tokens, self.position(), exprs_view(arguments@))
                        == grammar::arguments(tokens, start, Seq::empty()),
                    limits::arguments_reports(
                        tokens,
                        self.position(),
                        exprs_view(arguments@),
                        self.reports(),
                    ) == limits::arguments_reports(
                        tokens,
                        start,
                        Seq::empty(),
                        old(self).reports(),
                    ),
                invariant
                    old(self).moved_to(self),
                    tokens == old(self).tokens(),
                    start == old(self).position(),
                    !grammar::check(tokens, start, TokenType::RightParen),
                ensures
                    old(self).moved_to(self),
                    self.reports() == limits::arguments_reports(
                        tokens,
                        start,
                        Seq::empty(),
                        old(self).reports(),
                    ),
                    grammar::arguments(tokens, start, Seq::empty()) == (
                        Ok::<Seq<ExprView<'a>>, ParserError<'a>>(exprs_view(arguments@)),
                        self.position(),
                    ),
                decreases remaining(tokens, self.position()),
            {
                self.report_limit(arguments.len(), ParserErrorContext::TooManyFunctionArguments);
                let argument = match self.expression() {
                    Ok(argument) => argument,
                    Err(e) => {
                        return Err(e);
                    },
                };
                proof {
                    lemma_exprs_view_push(arguments@, argument);
                }
                arguments.push(argument);
                if self.tokenstream.check(&TokenType::Comma) {
                    self.tokenstream.position += 1;
                } else {
                    break ;
                }
            }
        }
        let paren = match self.tokenstream.consume(
            &TokenType::RightParen,
            ParserErrorContext::ExpectedRightParenAfterArguments,
        ) {
            Ok(paren) => paren,
            Err(e) => {
                return Err(e);
            },
        };
        Ok(Expr::Call(ExprCall { callee: Box::new(callee), paren, arguments }))
    }

    /// primary := "true" | "false" | "nil" | "this" | NUMBER | STRING | IDENT
    ///          | "(" expr ")" | "super" "." IDENT
    fn primary(&mut self) -> (outcome: Result<Expr<'a>, ParserError<'a>>)
        requires
            old(self).wf(),
        ensures
            old(self).moved_to(final(self)),
            final(self).reports() == limits::primary_reports(old(self).tokens(), old(self).position(), old(self).reports()),
            (expr_outcome(outcome), final(self).position()) == grammar::primary(
                old(self).tokens(),
                old(self).position(),
            ),
            outcome is Ok ==> final(self).position() > old(self).position(),
        decreases remaining(old(self).tokens(), old(self).position()), 13nat,
    {
        let token = match self.tokenstream.peek() {
            Ok(token) => *token,
            Err(e) => {
                return Err(ParserError::TokenStream(e));
            },
        };
        if self.tokenstream.is_at_end() {
            return Err(ParserError::UnexpectedEOF { token });
        }
        self.tokenstream.position += 1;
        match token.kind {
            TokenType::False => Ok(Expr::Literal(ExprLiteral { value: LiteralValue::Bool(false) })),
            TokenType::True => Ok(Expr::Literal(ExprLiteral { value: LiteralValue::Bool(true) })),
            TokenType::Nil => Ok(Expr::Literal(ExprLiteral { value: LiteralValue::Nil })),
            TokenType::Number => Ok(
                Expr::Literal(
                    ExprLiteral { value: LiteralValue::Number(String::from_str(token.lexeme)) },
                ),
            ),
            TokenType::String => Ok(
                Expr::Literal(
                    ExprLiteral { value: LiteralValue::String(String::from_str(token.lexeme)) },
                ),
            ),
            TokenType::LeftParen => {
                let inner = match self.expression() {
                    Ok(inner) => inner,
                    Err(e) => {
                        return Err(e);
                    },
                };
                match self.tokenstream.consume(
                    &TokenType::RightParen,
                    ParserErrorContext::UnmatchedParanthesis,
                ) {
                    Ok(_) => Ok(Expr::Grouping(ExprGrouping { value: Box::new(inner) })),
                    Err(e) => Err(e),
                }
            },
            TokenType::This => Ok(Expr::This(ExprThis { keyword: token })),
            TokenType::Ident => Ok(Expr::Variable(ExprVariable { name: token })),
            TokenType::Super => {
                match self.tokenstream.consume(
                    &TokenType::Dot,
                    ParserErrorContext::ExpectedDotAfterSuper,
                ) {
                    Ok(_) => {},
                    Err(e) => {
                        return Err(e);
                    },
                }
                match self.tokenstream.consume(
                    &TokenType::Ident,
                    ParserErrorContext::ExpectedSuperclassMethodName,
                ) {
                    Ok(method) => Ok(Expr::Super(ExprSuper { keyword: token, method })),
                    Err(e) => Err(e),
                }
            },
            _ => Err(ParserError::UnexpectedToken { token }),
        }
    }

    /// declaration := classDecl | funDecl | varDecl | statement
    fn declaration(&mut self) -> (outcome: Result<Stmt<'a>, ParserError<'a>>)
        requires
            old(self).wf(),
        ensures
            old(self).moved_to(final(self)),
            final(self).reports() == limits::declaration_reports(old(self).tokens(), old(self).position(), old(self).reports()),
            (stmt_outcome(outcome), final(self).position()) == grammar::declaration(
                old(self).tokens(),
                old(self).position(),
            ),
            outcome is Ok ==> final(self).position() > old(self).position(),
        decreases remaining(old(self).tokens(), old(self).position()), 50nat,
    {
        if self.tokenstream.check(&TokenType::Var) {
            self.tokenstream.position += 1;
            return self.var_declaration();
        }
        if self.tokenstream.check(&TokenType::Class) {
            self.tokenstream.position += 1;
            return self.class_declaration();
        }
        if self.tokenstream.check(&TokenType::Fun) {
            self.tokenstream.position += 1;
            return match self.function(ParserErrorContext::ExpectedFunctionName) {
                Ok(function) => Ok(Stmt::Function(function)),
                Err(e) => Err(e),
            };
        }
        self.statement()
    }

    /// classDecl := "class" IDENT ("<" IDENT)? "{" function* "}", from the
    /// name on.
    fn class_declaration(&mut self) -> (outcome: Result<Stmt<'a>, ParserError<'a>>)
        requires
            old(self).wf(),
        ensures
            old(self).moved_to(final(self)),
            final(self).reports() == limits::class_declaration_reports(old(self).tokens(), old(self).position(), old(self).reports()),
            (stmt_outcome(outcome), final(self).position()) == grammar::class_declaration(
                old(self).tokens(),
                old(self).position(),
            ),
            outcome is Ok ==> final(self).position() > old(self).position(),
        decreases remaining(old(self).tokens(), old(self).position()), 49nat,
    {
        let ghost tokens = self.tokens();
        let name = match self.tokenstream.consume(
            &TokenType::Ident,
            ParserErrorContext::ExpectedClassName,
        ) {
            Ok(name) => name,
            Err(e) => {
                return Err(e);
            },
        };
        let mut superclass: Option<Expr<'a>> = None;
        if self.tokenstream.check(&TokenType::Less) {
            self.tokenstream.position += 1;
            match self.tokenstream.consume(
                &TokenType::Ident,
                ParserErrorContext::ExpectedSuperclassName,
            ) {
                Ok(parent) => {
                    superclass = Some(Expr::Variable(ExprVariable { name: parent }));
                },
                Err(e) => {
                    return Err(e);
                },
            }
        }
        match self.tokenstream.consume(
            &TokenType::LeftBrace,
            ParserErrorContext::ExpectedLeftBraceBeforeClassBody,
        ) {
            Ok(_) => {},
            Err(e) => {
                return Err(e);
            },
        }
        let methods = match self.methods() {
            Ok(methods) => methods,
            Err(e) => {
                return Err(e);
            },
        };
        match self.tokenstream.consume(
            &TokenType::RightBrace,
            ParserErrorContext::ExpectedRightBraceAfterClassBody,
        ) {
            Ok(_) => Ok(Stmt::Class(StmtClass { name, superclass, methods })),
            Err(e) => Err(e),
        }
    }

    /// The methods of a class body up to its closing brace.
    fn methods(&mut self) -> (outcome: Result<Vec<StmtFunction<'a>>, ParserError<'a>>)
        requires
            old(self).wf(),
        ensures
            old(self).moved_to(final(self)),
            final(self).reports() == limits::methods_reports(old(self).tokens(), old(self).position(), Seq::empty(), old(self).reports()),
            (
                match outcome {
                    Ok(found) => Ok(functions_view(found@)),
                    Err(e) => Err(e),
                },
                final(self).position(),
            ) == grammar::methods(old(self).tokens(), old(self).position(), Seq::empty()),
        decreases remaining(old(self).tokens(), old(self).position()), 48nat,
    {
        let ghost tokens = self.tokens();
        let mut methods: Vec<StmtFunction<'a>> = Vec::new();
        proof {
            lemma_views_empty();
        }
        while !self.tokenstream.check(&TokenType::RightBrace) && !self.tokenstream.is_at_end()
            invariant
                old(self).moved_to(self),
                tokens == old(self).tokens(),
                grammar::methods(tokens, self.position(), functions_view(methods@))
                    == grammar::methods(tokens, old(self).position(), Seq::empty()),
                limits::methods_reports(
                    tokens,
                    self.position(),
                    functions_view(methods@),
                    self.reports(),
                ) == limits::methods_reports(
                    tokens,
                    old(self).position(),
                    Seq::empty(),
                    old(self).reports(),
                ),
            decreases remaining(tokens, self.position()),
        {
            let method = match self.function(ParserErrorContext::ExpectedMethod) {
                Ok(method) => method,
                Err(e) => {
                    return Err(e);
                },
            };
            proof {
                lemma_functions_view_push(methods@, method);
            }
            methods.push(method);
        }
        Ok(methods)
    }

    /// One or more parameter names separated by commas.
    fn parameters(&mut self) -> (outcome: Result<Vec<Token<'a>>, ParserError<'a>>)
        requires
            old(self).wf(),
        ensures
            old(self).moved_to(final(self)),
            final(self).reports() == limits::parameters_reports(old(self).tokens(), old(self).position(), Seq::empty(), old(self).reports()),
            (
                match outcome {
                    Ok(found) => Ok(found@),
                    Err(e) => Err(e),
                },
                final(self).position(),
            ) == grammar::parameters(old(self).tokens(), old(self).position(), Seq::empty()),
    {
        let ghost tokens = self.tokens();
        let mut parameters: Vec<Token<'a>> = Vec::new();
        loop
            invariant_except_break
                grammar::parameters(tokens, self.position(), parameters@) == grammar::parameters(
                    tokens,
                    old(self).position(),
                    Seq::empty(),
                ),
                limits::parameters_reports(tokens, self.position(), parameters@, self.reports())
                    == limits::parameters_reports(
                    tokens,
                    old(self).position(),
                    Seq::empty(),
                    old(self).reports(),
                ),
            invariant
                old(self).moved_to(self),
                tokens == old(self).tokens(),
            ensures
                old(self).moved_to(self),
                self.reports() == limits::parameters_reports(
                    tokens,
                    old(self).position(),
                    Seq::empty(),
                    old(self).reports(),
                ),
                grammar::parameters(tokens, old(self).position(), Seq::empty()) == (
                    Ok::<Seq<Token<'a>>, ParserError<'a>>(parameters@),
                    self.position(),
                ),
            decreases remaining(tokens, self.position()),
        {
            self.report_limit(parameters.len(), ParserErrorContext::TooManyFunctionParameters);
            let parameter = match self.tokenstream.consume(
                &TokenType::Ident,
                ParserErrorContext::ExpectedParameterName,
            ) {
                Ok(parameter) => parameter,
                Err(e) => {
                    return Err(e);
                },
            };
            parameters.push(parameter);
            if self.tokenstream.check(&TokenType::Comma) {
                self.tokenstream.position += 1;
            } else {
                break ;
            }
        }
        Ok(parameters)
    }

    /// function := IDENT "(" params? ")" block
    fn function(&mut self, kind: ParserErrorContext) -> (outcome: Result<
        StmtFunction<'a>,
        ParserError<'a>,
    >)
        requires
            old(self).wf(),
        ensures
            old(self).moved_to(final(self)),
            final(self).reports() == limits::function_reports(old(self).tokens(), old(self).position(), kind, old(self).reports()),
            (function_outcome(outcome), final(self).position()) == grammar::function(
                old(self).tokens(),
                old(self).position(),
                kind,
            ),
            outcome is Ok ==> final(self).position() > old(self).position(),
        decreases remaining(old(self).tokens(), old(self).position()), 47nat,
    {
        let name = match self.tokenstream.consume(&TokenType::Ident, kind) {
            Ok(name) => name,
            Err(e) => {
                return Err(e);
            },
        };
        match self.tokenstream.consume(
            &TokenType::LeftParen,
            ParserErrorContext::ExpectedLeftParenAfterFunctionName,
        ) {
            Ok(_) => {},
            Err(e) => {
                return Err(e);
            },
        }
        let parameters = if self.tokenstream.check(&TokenType::RightParen) {
            Vec::new()
        } else {
            match self.parameters() {
                Ok(parameters) => parameters,
                Err(e) => {
                    return Err(e);
                },
            }
        };
        match self.tokenstream.consume(
            &TokenType::RightParen,
            ParserErrorContext::ExpectedRightParenAfterParameters,
        ) {
            Ok(_) => {},
            Err(e) => {
                return Err(e);
            },
        }
        match self.tokenstream.consume(
            &TokenType::LeftBrace,
            ParserErrorContext::ExpectedLeftBraceBeforeFunctionBody,
        ) {
            Ok(_) => {},
            Err(e) => {
                return Err(e);
            },
        }
        match self.block() {
            Ok(body) => Ok(StmtFunction { name, params: parameters, body }),
            Err(e) => Err(e),
        }
    }

    /// varDecl := "var" IDENT ("=" expr)? ";", from the name on.
    fn var_declaration(&mut self) -> (outcome: Result<Stmt<'a>, ParserError<'a>>)
        requires
            old(self).wf(),
        ensures
            old(self).moved_to(final(self)),
            final(self).reports() == limits::var_declaration_reports(old(self).tokens(), old(self).position(), old(self).reports()),
            (stmt_outcome(outcome), final(self).position()) == grammar::var_declaration(
                old(self).tokens(),
                old(self).position(),
            ),
            outcome is Ok ==> final(self).position() > old(self).position(),
        decreases remaining(old(self).tokens(), old(self).position()), 41nat,
    {
        let name = match self.tokenstream.consume(
            &TokenType::Ident,
            ParserErrorContext::InvalidAssignmentTarget,
        ) {
            Ok(name) => name,
            Err(e) => {
                return Err(e);
            },
        };
        let mut initializer: Option<Expr<'a>> = None;
        if self.tokenstream.check(&TokenType::Equal) {
            self.tokenstream.position += 1;
            match self.expression() {
                Ok(value) => {
                    initializer = Some(value);
                },
                Err(e) => {
                    return Err(e);
                },
            }
        }
        match self.tokenstream.consume(&TokenType::Semicolon, ParserErrorContext::ExpectedSemicolon) {
            Ok(_) => Ok(Stmt::Var(StmtVar { name, initializer })),
            Err(e) => Err(e),
        }
    }

    /// statement := exprStmt | forStmt | ifStmt | printStmt | returnStmt
    ///            | whileStmt | block
    fn statement(&mut self) -> (outcome: Result<Stmt<'a>, ParserError<'a>>)
        requires
            old(self).wf(),
        ensures
            old(self).moved_to(final(self)),
            final(self).reports() == limits::statement_reports(old(self).tokens(), old(self).position(), old(self).reports()),
            (stmt_outcome(outcome), final(self).position()) == grammar::statement(
                old(self).tokens(),
                old(self).position(),
            ),
            outcome is Ok ==> final(self).position() > old(self).position(),
        decreases remaining(old(self).tokens(), old(self).position()), 44nat,
    {
        if self.tokenstream.check(&TokenType::If) {
            self.tokenstream.position += 1;
            return self.if_statement();
        }
        if self.tokenstream.check(&TokenType::Print) {
            self.tokenstream.position += 1;
            return self.print_statement();
        }
        if self.tokenstream.check(&TokenType::Return) {
            self.tokenstream.position += 1;
            return self.return_statement();
        }
        if self.tokenstream.check(&TokenType::LeftBrace) {
            self.tokenstream.position += 1;
            return match self.block() {
                Ok(statements) => Ok(Stmt::Block(StmtBlock { statements })),
                Err(e) => Err(e),
            };
        }
        if self.tokenstream.check(&TokenType::While) {
            self.tokenstream.position += 1;
            return self.while_statement();
        }
        if self.tokenstream.check(&TokenType::For) {
            self.tokenstream.position += 1;
            return self.for_statement();
        }
        self.expression_statement()
    }

    /// A parenthesised condition: "(" expr ")".
    fn condition(&mut self, opening: ParserErrorContext) -> (outcome: Result<
        Expr<'a>,
        ParserError<'a>,
    >)
        requires
            old(self).wf(),
        ensures
            old(self).moved_to(final(self)),
            final(self).reports() == limits::condition_reports(old(self).tokens(), old(self).position(), opening, old(self).reports()),
            (expr_outcome(outcome), final(self).position()) == grammar::condition(
                old(self).tokens(),
                old(self).position(),
                opening,
            ),
            outcome is Ok ==> final(self).position() > old(self).position(),
        decreases remaining(old(self).tokens(), old(self).position()), 40nat,
    {
        match self.tokenstream.consume(&TokenType::LeftParen, opening) {
            Ok(_) => {},
            Err(e) => {
                return Err(e);
            },
        }
        let test = match self.expression() {
            Ok(test) => test,
            Err(e) => {
                return Err(e);
            },
        };
        match self.tokenstream.consume(
            &TokenType::RightParen,
            ParserErrorContext::ExpectedRightParenAfterCondition,
        ) {
            Ok(_) => Ok(test),
            Err(e) => Err(e),
        }
    }

    /// ifStmt := "if" "(" expr ")" statement ("else" statement)?, from the
    /// parenthesis on.
    fn if_statement(&mut self) -> (outcome: Result<Stmt<'a>, ParserError<'a>>)
        requires
            old(self).wf(),
        ensures
            old(self).moved_to(final(self)),
            final(self).reports() == limits::if_statement_reports(old(self).tokens(), old(self).position(), old(self).reports()),
            (stmt_outcome(outcome), final(self).position()) == grammar::if_statement(
                old(self).tokens(),
                old(self).position(),
            ),
            outcome is Ok ==> final(self).position() > old(self).position(),
        decreases remaining(old(self).tokens(), old(self).position()), 41nat,
    {
        let condition = match self.condition(ParserErrorContext::ExpectedLeftParenAfterIf) {
            Ok(condition) => condition,
            Err(e) => {
                return Err(e);
            },
        };
        let then_branch = match self.statement() {
            Ok(then_branch) => Box::new(then_branch),
            Err(e) => {
                return Err(e);
            },
        };
        let mut else_branch: Option<Box<Stmt<'a>>> = None;
        if self.tokenstream.check(&TokenType::Else) {
            self.tokenstream.position += 1;
            match self.statement() {
                Ok(branch) => {
                    else_branch = Some(Box::new(branch));
                },
                Err(e) => {
                    return Err(e);
                },
            }
        }
        Ok(Stmt::If(StmtIf { condition, then_branch, else_branch }))
    }

    /// block := "{" declaration* "}", from the first declaration on.
    fn block(&mut self) -> (outcome: Result<Vec<Stmt<'a>>, ParserError<'a>>)
        requires
            old(self).wf(),
        ensures
            old(self).moved_to(final(self)),
            final(self).reports() == limits::block_reports(old(self).tokens(), old(self).position(), old(self).reports()),
            (stmts_outcome(outcome), final(self).position()) == grammar::block(
                old(self).tokens(),
                old(self).position(),
            ),
            outcome is Ok ==> final(self).position() > old(self).position(),
        decreases remaining(old(self).tokens(), old(self).position()), 56nat,
    {
        let ghost tokens = self.tokens();
        let mut statements: Vec<Stmt<'a>> = Vec::new();
        proof {
            lemma_views_empty();
        }
        while !self.tokenstream.check(&TokenType::RightBrace) && !self.tokenstream.is_at_end()
            invariant
                old(self).moved_to(self),
                tokens == old(self).tokens(),
                grammar::block_items(tokens, self.position(), stmts_view(statements@))
                    == grammar::block_items(tokens, old(self).position(), Seq::empty()),
                limits::block_items_reports(
                    tokens,
                    self.position(),
                    stmts_view(statements@),
                    self.reports(),
                ) == limits::block_items_reports(
                    tokens,
                    old(self).position(),
                    Seq::empty(),
                    old(self).reports(),
                ),
            decreases remaining(tokens, self.position()),
        {
            let item = match self.declaration() {
                Ok(item) => item,
                Err(e) => {
                    return Err(e);
                },
            };
            proof {
                lemma_stmts_view_push(statements@, item);
            }
            statements.push(item);
        }
        match self.tokenstream.consume(
            &TokenType::RightBrace,
            ParserErrorContext::ExpectedRightBrace,
        ) {
            Ok(_) => Ok(statements),
            Err(e) => Err(e),
        }
    }

    /// printStmt := "print" expr ";", from the expression on.
    fn print_statement(&mut self) -> (outcome: Result<Stmt<'a>, ParserError<'a>>)
        requires
            old(self).wf(),
        ensures
            old(self).moved_to(final(self)),
            final(self).reports() == limits::expression_reports(old(self).tokens(), old(self).position(), old(self).reports()),
            (stmt_outcome(outcome), final(self).position()) == grammar::print_statement(
                old(self).tokens(),
                old(self).position(),
            ),
            outcome is Ok ==> final(self).position() > old(self).position(),
        decreases remaining(old(self).tokens(), old(self).position()), 41nat,
    {
        let value = match self.expression() {
            Ok(value) => value,
            Err(e) => {
                return Err(e);
            },
        };
        match self.tokenstream.consume(&TokenType::Semicolon, ParserErrorContext::ExpectedSemicolon) {
            Ok(_) => Ok(Stmt::Print(StmtPrint { expr: value })),
            Err(e) => Err(e),
        }
    }

    /// returnStmt := "return" expr? ";", from the value on.
    fn return_statement(&mut self) -> (outcome: Result<Stmt<'a>, ParserError<'a>>)
        requires
            old(self).wf(),
        ensures
            old(self).moved_to(final(self)),
            final(self).reports() == limits::return_statement_reports(old(self).tokens(), old(self).position(), old(self).reports()),
            (stmt_outcome(outcome), final(self).position()) == grammar::return_statement(
                old(self).tokens(),
                old(self).position(),
            ),
            outcome is Ok ==> final(self).position() > old(self).position(),
        decreases remaining(old(self).tokens(), old(self).position()), 41nat,
    {
        let keyword = match self.tokenstream.previous() {
            Ok(keyword) => keyword,
            Err(e) => {
                return Err(ParserError::TokenStream(e));
            },
        };
        let mut value: Option<Expr<'a>> = None;
        if !self.tokenstream.check(&TokenType::Semicolon) {
            match self.expression() {
                Ok(found) => {
                    value = Some(found);
                },
                Err(e) => {
                    return Err(e);
                },
            }
        }
        match self.tokenstream.consume(
            &TokenType::Semicolon,
            ParserErrorContext::ExpectedSemicolonAfterReturnValue,
        ) {
            Ok(_) => Ok(Stmt::Return(StmtReturn { keyword, value })),
            Err(e) => Err(e),
        }
    }

    /// whileStmt := "while" "(" expr ")" statement, from the parenthesis on.
    fn while_statement(&mut self) -> (outcome: Result<Stmt<'a>, ParserError<'a>>)
        requires
            old(self).wf(),
        ensures
            old(self).moved_to(final(self)),
            final(self).reports() == limits::while_statement_reports(old(self).tokens(), old(self).position(), old(self).reports()),
            (stmt_outcome(outcome), final(self).position()) == grammar::while_statement(
                old(self).tokens(),
                old(self).position(),
            ),
            outcome is Ok ==> final(self).position() > old(self).position(),
        decreases remaining(old(self).tokens(), old(self).position()), 41nat,
    {
        let condition = match self.condition(ParserErrorContext::ExpectedLeftParenAfterWhile) {
            Ok(condition) => condition,
            Err(e) => {
                return Err(e);
            },
        };
        match self.statement() {
            Ok(body) => Ok(Stmt::While(StmtWhile { condition, body: Box::new(body) })),
            Err(e) => Err(e),
        }
    }

    /// The initializer clause of a `for` statement, with its semicolon.
    fn for_initializer(&mut self) -> (outcome: Result<Option<Stmt<'a>>, ParserError<'a>>)
        requires
            old(self).wf(),
        ensures
            old(self).moved_to(final(self)),
            final(self).reports() == limits::for_initializer_reports(old(self).tokens(), old(self).position(), old(self).reports()),
            (
                match outcome {
                    Ok(Some(s)) => Ok(Some(stmt_view(s))),
                    Ok(None) => Ok(None),
                    Err(e) => Err(e),
                },
                final(self).position(),
            ) == grammar::for_initializer(old(self).tokens(), old(self).position()),
            outcome is Ok ==> final(self).position() > old(self).position(),
        decreases remaining(old(self).tokens(), old(self).position()), 43nat,
    {
        if self.tokenstream.check(&TokenType::Semicolon) {
            self.tokenstream.position += 1;
            return Ok(None);
        }
        let clause = if self.tokenstream.check(&TokenType::Var) {
            self.tokenstream.position += 1;
            self.var_declaration()
        } else {
            self.expression_statement()
        };
        match clause {
            Ok(clause) => Ok(Some(clause)),
            Err(e) => Err(e),
        }
    }

    /// An expression that is absent where the next token is of kind `closer`.
    fn optional_expression(&mut self, closer: TokenType) -> (outcome: Result<
        Option<Expr<'a>>,
        ParserError<'a>,
    >)
        requires
            old(self).wf(),
        ensures
            old(self).moved_to(final(self)),
            final(self).reports() == limits::optional_expression_reports(old(self).tokens(), old(self).position(), closer, old(self).reports()),
            (optional_expr_outcome(outcome), final(self).position())
                == grammar::optional_expression(
                old(self).tokens(),
                old(self).position(),
                closer,
            ),
        decreases remaining(old(self).tokens(), old(self).position()), 43nat,
    {
        if self.tokenstream.check(&closer) {
            return Ok(None);
        }
        match self.expression() {
            Ok(value) => Ok(Some(value)),
            Err(e) => Err(e),
        }
    }

    /// forStmt := "for" "(" (varDecl | exprStmt | ";") expr? ";" expr? ")"
    /// statement, from the parenthesis on. The statement is given as the
    /// `while` loop that it stands for.
    fn for_statement(&mut self) -> (outcome: Result<Stmt<'a>, ParserError<'a>>)
        requires
            old(self).wf(),
        ensures
            old(self).moved_to(final(self)),
            final(self).reports() == limits::for_statement_reports(old(self).tokens(), old(self).position(), old(self).reports()),
            (stmt_outcome(outcome), final(self).position()) == grammar::for_statement(
                old(self).tokens(),
                old(self).position(),
            ),
            outcome is Ok ==> final(self).position() > old(self).position(),
        decreases remaining(old(self).tokens(), old(self).position()), 45nat,
    {
        match self.tokenstream.consume(
            &TokenType::LeftParen,
            ParserErrorContext::ExpectedLeftParenAfterFor,
        ) {
            Ok(_) => {},
            Err(e) => {
                return Err(e);
            },
        }
        let initializer = match self.for_initializer() {
            Ok(initializer) => initializer,
            Err(e) => {
                return Err(e);
            },
        };
        let condition = match self.optional_expression(TokenType::Semicolon) {
            Ok(condition) => condition,
            Err(e) => {
                return Err(e);
            },
        };
        match self.tokenstream.consume(
            &TokenType::Semicolon,
            ParserErrorContext::ExpectedSemicolonAfterLoopCondition,
        ) {
            Ok(_) => {},
            Err(e) => {
                return Err(e);
            },
        }
        let increment = match self.optional_expression(TokenType::RightParen) {
            Ok(increment) => increment,
            Err(e) => {
                return Err(e);
            },
        };
        match self.tokenstream.consume(
            &TokenType::RightParen,
            ParserErrorContext::ExpectedRightParenAfterForClause,
        ) {
            Ok(_) => {},
            Err(e) => {
                return Err(e);
            },
        }
        match self.statement() {
            Ok(body) => Ok(desugar_for(initializer, condition, increment, body)),
            Err(e) => Err(e),
        }
    }

    /// exprStmt := expr ";"
    fn expression_statement(&mut self) -> (outcome: Result<Stmt<'a>, ParserError<'a>>)
        requires
            old(self).wf(),
        ensures
            old(self).moved_to(final(self)),
            final(self).reports() == limits::expression_reports(old(self).tokens(), old(self).position(), old(self).reports()),
            (stmt_outcome(outcome), final(self).position()) == grammar::expression_statement(
                old(self).tokens(),
                old(self).position(),
            ),
            outcome is Ok ==> final(self).position() > old(self).position(),
        decreases remaining(old(self).tokens(), old(self).position()), 41nat,
    {
        let value = match self.expression() {
            Ok(value) => value,
            Err(e) => {
                return Err(e);
            },
        };
        match self.tokenstream.consume(&TokenType::Semicolon, ParserErrorContext::ExpectedSemicolon) {
            Ok(_) => Ok(Stmt::Expression(StmtExpression { expr: value })),
            Err(e) => Err(e),
        }
    }

    /// Drops the token at the position, then every token up to the next that
    /// may begin a statement, or up to just past a semicolon.
    fn synchronize(&mut self)
        requires
            old(self).wf(),
        ensures
            old(self).moved_to(final(self)),
            final(self).reports() == old(self).reports(),
            final(self).position() == grammar::synchronize(
                old(self).tokens(),
                old(self).position(),
            ),
            !grammar::at_end(old(self).tokens(), old(self).position()) ==> final(self).position()
                > old(self).position(),
    {
        let ghost tokens = self.tokens();
        if self.tokenstream.is_at_end() {
            return ;
        }
        self.tokenstream.position += 1;
        let ghost from = self.position();
        while !self.tokenstream.is_at_end()
            invariant
                old(self).moved_to(self),
                tokens == old(self).tokens(),
                from == old(self).position() + 1,
                from <= self.position(),
                self.reports() == old(self).reports(),
                !grammar::at_end(tokens, old(self).position()),
                grammar::synchronize_from(tokens, self.position()) == grammar::synchronize_from(
                    tokens,
                    from,
                ),
            decreases remaining(tokens, self.position()),
        {
            let before = self.tokenstream.tokens[self.tokenstream.position - 1].kind;
            if before == TokenType::Semicolon {
                return ;
            }
            if begins_statement(self.tokenstream.tokens[self.tokenstream.position].kind) {
                return ;
            }
            self.tokenstream.position += 1;
        }
    }

    /// Parses the whole token list. Gives the statements where every
    /// declaration parsed, else the first error. After an error the tokens are
    /// taken up again at the next statement boundary, and every error found
    /// is kept.
    #[verifier::rlimit(100)]
    pub fn parse(&mut self) -> (outcome: Result<Vec<Stmt<'a>>, ParserError<'a>>)
        requires
            old(self).wf(),
        ensures
            final(self).wf(),
            final(self).tokens() == old(self).tokens(),
            final(self).errors() == old(self).errors() + grammar::program(
                old(self).tokens(),
                old(self).position(),
            ).1,
            stmts_outcome(outcome) == grammar::parsed(old(self).tokens(), old(self).position()),
            outcome is Ok ==> precedence::statements_respect(stmts_view(outcome->Ok_0@)),
            outcome is Ok && crate::lex::order::well_scanned(old(self).tokens()) && old(self).position() == 0 ==> keys::neat_stmts(stmts_view(outcome->Ok_0@)),
            final(self).reports() == limits::program_reports(
                old(self).tokens(),
                old(self).position(),
                old(self).reports(),
            ),
    {
        let ghost tokens = self.tokens();
        let ghost start = self.position();
        let ghost mut found: Seq<ParserError<'a>> = Seq::empty();
        let mut statements: Vec<Stmt<'a>> = Vec::new();
        let mut first: Option<ParserError<'a>> = None;
        proof {
            lemma_views_empty();
            assert(old(self).errors() + found =~= old(self).errors());
        }
        while !self.tokenstream.is_at_end()
            invariant
                self.wf(),
                self.tokens() == tokens,
                tokens == old(self).tokens(),
                start == old(self).position(),
                self.errors() == old(self).errors() + found,
                first == if found.len() == 0 {
                    None
                } else {
                    Some(found[0])
                },
                grammar::program(tokens, start) == (
                    stmts_view(statements@) + grammar::program(tokens, self.position()).0,
                    found + grammar::program(tokens, self.position()).1,
                ),
                limits::program_reports(tokens, self.position(), self.reports())
                    == limits::program_reports(tokens, start, old(self).reports()),
            decreases remaining(tokens, self.position()),
        {
            let ghost here = self.position();
            let ghost rest = grammar::program(tokens, here);
            match self.declaration() {
                Ok(item) => {
                    proof {
                        let after = grammar::program(tokens, self.position());
                        lemma_stmts_view_push(statements@, item);
                        assert(stmts_view(statements@) + (seq![stmt_view(item)] + after.0)
                            =~= stmts_view(statements@).push(stmt_view(item)) + after.0);
                    }
                    statements.push(item);
                },
                Err(e) => {
                    self.synchronize();
                    proof {
                        let after = grammar::program(tokens, self.position());
                        assert(found + (seq![e] + after.1) =~= found.push(e) + after.1);
                        assert(old(self).errors() + found.push(e) =~= (old(self).errors()
                            + found).push(e));
                        found = found.push(e);
                    }
                    self.errors.push(e);
                    if first.is_none() {
                        first = Some(e);
                    }
                },
            }
        }
        proof {
            assert(stmts_view(statements@) + Seq::<StmtView<'a>>::empty() =~= stmts_view(
                statements@,
            ));
            assert(found + Seq::<ParserError<'a>>::empty() =~= found);
            precedence::lemma_program_respects_precedence(tokens, start);
            if crate::lex::order::well_scanned(tokens) && start == 0 {
                neatness::lemma_program_is_neat(tokens, 0);
            }
        }
        match first {
            Some(e) => Err(e),
            None => Ok(statements),
        }
    }

    /// The errors found so far, in order.
    pub fn found_errors(&self) -> (errors: &Vec<ParserError<'a>>)
        ensures
            errors@ == self.errors(),
    {
        &self.errors
    }

    /// Notes on calls with too many arguments and functions with too many
    /// parameters; none of them fails the parse.
    pub fn limit_reports(&self) -> (reports: &Vec<ParserError<'a>>)
        ensures
            reports@ == self.reports(),
    {
        &self.reports
    }
}

/// Whether `kind` is an operator of the binary level `level`.
fn is_level_operator(level: u8, kind: TokenType) -> (found: bool)
    ensures
        found == grammar::is_operator(level as int, kind),
{
    if level == 0 {
        kind == TokenType::Or
    } else if level == 1 {
        kind == TokenType::And
    } else if level == 2 {
        kind == TokenType::BangEqual || kind == TokenType::EqualEqual
    } else if level == 3 {
        kind == TokenType::Greater || kind == TokenType::GreaterEqual || kind == TokenType::Less
            || kind == TokenType::LessEqual
    } else if level == 4 {
        kind == TokenType::Minus || kind == TokenType::Plus
    } else {
        kind == TokenType::Slash || kind == TokenType::Star
    }
}

/// The node that joins two operands at the binary level `level`.
fn join_operands<'a>(level: u8, left: Expr<'a>, operator: Token<'a>, right: Expr<'a>) -> (joined:
    Expr<'a>)
    ensures
        expr_view(joined) == grammar::join(
            level as int,
            expr_view(left),
            operator,
            expr_view(right),
        ),
{
    if level <= 1 {
        Expr::Logical(ExprLogical { left: Box::new(left), operator, right: Box::new(right) })
    } else {
        Expr::Binary(ExprBinary { left: Box::new(left), operator, right: Box::new(right) })
    }
}

/// Whether a statement may begin with a token of kind `kind`.
fn begins_statement(kind: TokenType) -> (found: bool)
    ensures
        found == grammar::starts_statement(kind),
{
    kind == TokenType::Class || kind == TokenType::Fun || kind == TokenType::Var || kind
        == TokenType::For || kind == TokenType::If || kind == TokenType::While || kind
        == TokenType::Print || kind == TokenType::Return
}

/// The loop that a `for` statement stands for.
fn desugar_for<'a>(
    initializer: Option<Stmt<'a>>,
    condition: Option<Expr<'a>>,
    increment: Option<Expr<'a>>,
    body: Stmt<'a>,
) -> (looped: Stmt<'a>)
    ensures
        stmt_view(looped) == grammar::desugared_for(
            match initializer {
                Some(s) => Some(stmt_view(s)),
                None => None,
            },
            match condition {
                Some(e) => Some(expr_view(e)),
                None => None,
            },
            match increment {
                Some(e) => Some(expr_view(e)),
                None => None,
            },
            stmt_view(body),
        ),
{
    let ghost body_view = stmt_view(body);
    let stepped = match increment {
        Some(increment) => {
            let ghost step_view = expr_view(increment);
            let statements = vec![body, Stmt::Expression(StmtExpression { expr: increment })];
            proof {
                assert(stmts_view(statements@) =~= seq![
                    body_view,
                    StmtView::Expression { expr: step_view },
                ]);
            }
            Stmt::Block(StmtBlock { statements })
        },
        None => body,
    };
    let ghost stepped_view = stmt_view(stepped);
    let test = match condition {
        Some(condition) => condition,
        None => Expr::Literal(ExprLiteral { value: LiteralValue::Bool(true) }),
    };
    let ghost test_view = expr_view(test);
    let looped = Stmt::While(StmtWhile { condition: test, body: Box::new(stepped) });
    let ghost looped_view = stmt_view(looped);
    assert(looped_view == StmtView::While {
        condition: test_view,
        body: Box::new(stepped_view),
    });
    match initializer {
        Some(initializer) => {
            let ghost first_view = stmt_view(initializer);
            let statements = vec![initializer, looped];
            proof {
                assert(stmts_view(statements@) =~= seq![first_view, looped_view]);
            }
            Stmt::Block(StmtBlock { statements })
        },
        None => looped,
    }
}

} // verus!
