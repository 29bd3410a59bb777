//! The syntax tree: expressions and statements, and their mathematical views.

pub mod printer;

use vstd::prelude::*;
use crate::lex::Token;

verus! {

/// A literal of the source. A number is kept as the decimal text that the
/// source gives.
#[derive(Debug, PartialEq, Eq, Clone)]
pub enum LiteralValue {
    String(String),
    Number(String),
    Bool(bool),
    Nil,
}

#[derive(Debug, PartialEq)]
pub struct ExprLiteral {
    pub value: LiteralValue,
}

#[derive(Debug, PartialEq)]
pub struct ExprGrouping<'a> {
    pub value: Box<Expr<'a>>,
}

#[derive(Debug, PartialEq)]
pub struct ExprLogical<'a> {
    pub left: Box<Expr<'a>>,
    pub operator: Token<'a>,
    pub right: Box<Expr<'a>>,
}

#[derive(Debug, PartialEq)]
pub struct ExprSet<'a> {
    pub object: Box<Expr<'a>>,
    pub name: Token<'a>,
    pub value: Box<Expr<'a>>,
}

#[derive(Debug, PartialEq)]
pub struct ExprSuper<'a> {
    pub keyword: Token<'a>,
    pub method: Token<'a>,
}

#[derive(Debug, PartialEq)]
pub struct ExprThis<'a> {
    pub keyword: Token<'a>,
}

#[derive(Debug, PartialEq)]
pub struct ExprUnary<'a> {
    pub operator: Token<'a>,
    pub value: Box<Expr<'a>>,
}

#[derive(Debug, PartialEq)]
pub struct ExprBinary<'a> {
    pub left: Box<Expr<'a>>,
    pub operator: Token<'a>,
    pub right: Box<Expr<'a>>,
}

#[derive(Debug, PartialEq)]
pub struct ExprCall<'a> {
    pub callee: Box<Expr<'a>>,
    pub paren: Token<'a>,
    pub arguments: Vec<Expr<'a>>,
}

#[derive(Debug, PartialEq)]
pub struct ExprGet<'a> {
    pub object: Box<Expr<'a>>,
    pub name: Token<'a>,
}

#[derive(Debug, PartialEq)]
pub struct ExprAssign<'a> {
    pub name: Token<'a>,
    pub value: Box<Expr<'a>>,
}

#[derive(Debug, PartialEq)]
pub struct ExprVariable<'a> {
    pub name: Token<'a>,
}

/// An expression.
#[derive(Debug, PartialEq)]
pub enum Expr<'a> {
    Literal(ExprLiteral),
    Grouping(ExprGrouping<'a>),
    Logical(ExprLogical<'a>),
    PropertySet(ExprSet<'a>),
    Super(ExprSuper<'a>),
    This(ExprThis<'a>),
    Unary(ExprUnary<'a>),
    Binary(ExprBinary<'a>),
    Call(ExprCall<'a>),
    Get(ExprGet<'a>),
    Assign(ExprAssign<'a>),
    Variable(ExprVariable<'a>),
}

#[derive(Debug, PartialEq)]
pub struct StmtBlock<'a> {
    pub statements: Vec<Stmt<'a>>,
}

#[derive(Debug, PartialEq)]
pub struct StmtClass<'a> {
    pub name: Token<'a>,
    pub superclass: Option<Expr<'a>>,
    pub methods: Vec<StmtFunction<'a>>,
}

#[derive(Debug, PartialEq)]
pub struct StmtExpression<'a> {
    pub expr: Expr<'a>,
}

#[derive(Debug, PartialEq)]
pub struct StmtFunction<'a> {
    pub name: Token<'a>,
    pub params: Vec<Token<'a>>,
    pub body: Vec<Stmt<'a>>,
}

#[derive(Debug, PartialEq)]
pub struct StmtIf<'a> {
    pub condition: Expr<'a>,
    pub then_branch: Box<Stmt<'a>>,
    pub else_branch: Option<Box<Stmt<'a>>>,
}

#[derive(Debug, PartialEq)]
pub struct StmtPrint<'a> {
    pub expr: Expr<'a>,
}

#[derive(Debug, PartialEq)]
pub struct StmtReturn<'a> {
    pub keyword: Token<'a>,
    pub value: Option<Expr<'a>>,
}

#[derive(Debug, PartialEq)]
pub struct StmtVar<'a> {
    pub name: Token<'a>,
    pub initializer: Option<Expr<'a>>,
}

#[derive(Debug, PartialEq)]
pub struct StmtWhile<'a> {
    pub condition: Expr<'a>,
    pub body: Box<Stmt<'a>>,
}

/// A statement.
#[derive(Debug, PartialEq)]
pub enum Stmt<'a> {
    Block(StmtBlock<'a>),
    Class(StmtClass<'a>),
    Expression(StmtExpression<'a>),
    Function(StmtFunction<'a>),
    If(StmtIf<'a>),
    Print(StmtPrint<'a>),
    Return(StmtReturn<'a>),
    Var(StmtVar<'a>),
    While(StmtWhile<'a>),
}

/// An expression, as written in the grammar.
pub type Expression<'a> = Expr<'a>;

/// A statement, as written in the grammar.
pub type Statement<'a> = Stmt<'a>;

/// The mathematical view of a literal.
pub enum LiteralView {
    String(Seq<char>),
    Number(Seq<char>),
    Bool(bool),
    Nil,
}

/// The mathematical view of an expression: lists are sequences.
pub enum ExprView<'a> {
    Literal { value: LiteralView },
    Grouping { value: Box<ExprView<'a>> },
    Logical { left: Box<ExprView<'a>>, operator: Token<'a>, right: Box<ExprView<'a>> },
    PropertySet { object: Box<ExprView<'a>>, name: Token<'a>, value: Box<ExprView<'a>> },
    Super { keyword: Token<'a>, method: Token<'a> },
    This { keyword: Token<'a> },
    Unary { operator: Token<'a>, value: Box<ExprView<'a>> },
    Binary { left: Box<ExprView<'a>>, operator: Token<'a>, right: Box<ExprView<'a>> },
    Call { callee: Box<ExprView<'a>>, paren: Token<'a>, arguments: Seq<ExprView<'a>> },
    Get { object: Box<ExprView<'a>>, name: Token<'a> },
    Assign { name: Token<'a>, value: Box<ExprView<'a>> },
    Variable { name: Token<'a> },
}

/// The mathematical view of a function declaration.
pub struct FunctionView<'a> {
    pub name: Token<'a>,
    pub params: Seq<Token<'a>>,
    pub body: Seq<StmtView<'a>>,
}

/// The mathematical view of a statement.
pub enum StmtView<'a> {
    Block { statements: Seq<StmtView<'a>> },
    Class { name: Token<'a>, superclass: Option<ExprView<'a>>, methods: Seq<FunctionView<'a>> },
    Expression { expr: ExprView<'a> },
    Function { function: FunctionView<'a> },
    If {
        condition: ExprView<'a>,
        then_branch: Box<StmtView<'a>>,
        else_branch: Option<Box<StmtView<'a>>>,
    },
    Print { expr: ExprView<'a> },
    Return { keyword: Token<'a>, value: Option<ExprView<'a>> },
    Var { name: Token<'a>, initializer: Option<ExprView<'a>> },
    While { condition: ExprView<'a>, body: Box<StmtView<'a>> },
}

impl View for LiteralValue {
    type V = LiteralView;

    open spec fn view(&self) -> LiteralView {
        match self {
            LiteralValue::String(s) => LiteralView::String(s@),
            LiteralValue::Number(s) => LiteralView::Number(s@),
            LiteralValue::Bool(b) => LiteralView::Bool(*b),
            LiteralValue::Nil => LiteralView::Nil,
        }
    }
}

/// The views of a list of expressions.
pub open spec fn exprs_view<'a>(list: Seq<Expr<'a>>) -> Seq<ExprView<'a>>
    decreases list,
{
    Seq::new(
        list.len(),
        |i: int|
            if 0 <= i < list.len() {
                expr_view(list[i])
            } else {
                arbitrary()
            },
    )
}

/// The view of an expression.
pub open spec fn expr_view<'a>(expr: Expr<'a>) -> ExprView<'a>
    decreases expr,
{
    match expr {
        Expr::Literal(e) => ExprView::Literal { value: e.value@ },
        Expr::Grouping(e) => ExprView::Grouping { value: Box::new(expr_view(*e.value)) },
        Expr::Logical(e) => ExprView::Logical {
            left: Box::new(expr_view(*e.left)),
            operator: e.operator,
            right: Box::new(expr_view(*e.right)),
        },
        Expr::PropertySet(e) => ExprView::PropertySet {
            object: Box::new(expr_view(*e.object)),
            name: e.name,
            value: Box::new(expr_view(*e.value)),
        },
        Expr::Super(e) => ExprView::Super { keyword: e.keyword, method: e.method },
        Expr::This(e) => ExprView::This { keyword: e.keyword },
        Expr::Unary(e) => ExprView::Unary {
            operator: e.operator,
            value: Box::new(expr_view(*e.value)),
        },
        Expr::Binary(e) => ExprView::Binary {
            left: Box::new(expr_view(*e.left)),
            operator: e.operator,
            right: Box::new(expr_view(*e.right)),
        },
        Expr::Call(e) => ExprView::Call {
            callee: Box::new(expr_view(*e.callee)),
            paren: e.paren,
            arguments: exprs_view(e.arguments@),
        },
        Expr::Get(e) => ExprView::Get { object: Box::new(expr_view(*e.object)), name: e.name },
        Expr::Assign(e) => ExprView::Assign { name: e.name, value: Box::new(expr_view(*e.value)) },
        Expr::Variable(e) => ExprView::Variable { name: e.name },
    }
}

impl<'a> View for Expr<'a> {
    type V = ExprView<'a>;

    open spec fn view(&self) -> ExprView<'a> {
        expr_view(*self)
    }
}

/// The view of an expression that may be absent.
pub open spec fn optional_expr_view<'a>(e: Option<Expr<'a>>) -> Option<ExprView<'a>> {
    match e {
        Some(e) => Some(expr_view(e)),
        None => None,
    }
}

/// The views of a list of statements.
pub open spec fn stmts_view<'a>(list: Seq<Stmt<'a>>) -> Seq<StmtView<'a>>
    decreases list,
{
    Seq::new(
        list.len(),
        |i: int|
            if 0 <= i < list.len() {
                stmt_view(list[i])
            } else {
                arbitrary()
            },
    )
}

/// The views of a list of function declarations.
pub open spec fn functions_view<'a>(list: Seq<StmtFunction<'a>>) -> Seq<FunctionView<'a>>
    decreases list,
{
    Seq::new(
        list.len(),
        |i: int|
            if 0 <= i < list.len() {
                function_view(list[i])
            } else {
                arbitrary()
            },
    )
}

/// The view of a function declaration.
pub open spec fn function_view<'a>(function: StmtFunction<'a>) -> FunctionView<'a>
    decreases function,
{
    FunctionView {
        name: function.name,
        params: function.params@,
        body: stmts_view(function.body@),
    }
}

/// The view of a statement.
pub open spec fn stmt_view<'a>(stmt: Stmt<'a>) -> StmtView<'a>
    decreases stmt,
{
    match stmt {
        Stmt::Block(s) => StmtView::Block { statements: stmts_view(s.statements@) },
        Stmt::Class(s) => StmtView::Class {
            name: s.name,
            superclass: optional_expr_view(s.superclass),
            methods: functions_view(s.methods@),
        },
        Stmt::Expression(s) => StmtView::Expression { expr: expr_view(s.expr) },
        Stmt::Function(s) => StmtView::Function { function: function_view(s) },
        Stmt::If(s) => StmtView::If {
            condition: expr_view(s.condition),
            then_branch: Box::new(stmt_view(*s.then_branch)),
            else_branch: match s.else_branch {
                Some(b) => Some(Box::new(stmt_view(*b))),
                None => None,
            },
        },
        Stmt::Print(s) => StmtView::Print { expr: expr_view(s.expr) },
        Stmt::Return(s) => StmtView::Return {
            keyword: s.keyword,
            value: optional_expr_view(s.value),
        },
        Stmt::Var(s) => StmtView::Var {
            name: s.name,
            initializer: optional_expr_view(s.initializer),
        },
        Stmt::While(s) => StmtView::While {
            condition: expr_view(s.condition),
            body: Box::new(stmt_view(*s.body)),
        },
    }
}

impl<'a> View for StmtFunction<'a> {
    type V = FunctionView<'a>;

    open spec fn view(&self) -> FunctionView<'a> {
        function_view(*self)
    }
}

impl<'a> View for Stmt<'a> {
    type V = StmtView<'a>;

    open spec fn view(&self) -> StmtView<'a> {
        stmt_view(*self)
    }
}

} // verus!

verus! {

/// The views of a list with one more expression.
pub proof fn lemma_exprs_view_push<'a>(list: Seq<Expr<'a>>, last: Expr<'a>)
    ensures
        exprs_view(list.push(last)) == exprs_view(list).push(expr_view(last)),
{
    assert(exprs_view(list.push(last)) =~= exprs_view(list).push(expr_view(last)));
}

/// The views of a list with one more statement.
pub proof fn lemma_stmts_view_push<'a>(list: Seq<Stmt<'a>>, last: Stmt<'a>)
    ensures
        stmts_view(list.push(last)) == stmts_view(list).push(stmt_view(last)),
{
    assert(stmts_view(list.push(last)) =~= stmts_view(list).push(stmt_view(last)));
}

/// The views of a list with one more function declaration.
pub proof fn lemma_functions_view_push<'a>(list: Seq<StmtFunction<'a>>, last: StmtFunction<'a>)
    ensures
        functions_view(list.push(last)) == functions_view(list).push(function_view(last)),
{
    assert(functions_view(list.push(last)) =~= functions_view(list).push(function_view(last)));
}

/// The views of the empty lists.
pub proof fn lemma_views_empty<'a>()
    ensures
        exprs_view(Seq::<Expr<'a>>::empty()) == Seq::<ExprView<'a>>::empty(),
        stmts_view(Seq::<Stmt<'a>>::empty()) == Seq::<StmtView<'a>>::empty(),
        functions_view(Seq::<StmtFunction<'a>>::empty()) == Seq::<FunctionView<'a>>::empty(),
{
    assert(exprs_view(Seq::<Expr<'a>>::empty()) =~= Seq::<ExprView<'a>>::empty());
    assert(stmts_view(Seq::<Stmt<'a>>::empty()) =~= Seq::<StmtView<'a>>::empty());
    assert(functions_view(Seq::<StmtFunction<'a>>::empty()) =~= Seq::<FunctionView<'a>>::empty());
}

} // verus!

verus! {

impl ExprLiteral {
    pub fn new(value: LiteralValue) -> (node: Self)
        ensures
            node == (ExprLiteral { value }),
    {
        Self { value }
    }
}

impl<'a> ExprGrouping<'a> {
    pub fn new(value: Box<Expr<'a>>) -> (node: Self)
        ensures
            node == (ExprGrouping { value }),
    {
        Self { value }
    }
}

impl<'a> ExprLogical<'a> {
    pub fn new(left: Box<Expr<'a>>, operator: Token<'a>, right: Box<Expr<'a>>) -> (node: Self)
        ensures
            node == (ExprLogical { left, operator, right }),
    {
        Self { left, operator, right }
    }
}

impl<'a> ExprSet<'a> {
    pub fn new(object: Box<Expr<'a>>, name: Token<'a>, value: Box<Expr<'a>>) -> (node: Self)
        ensures
            node == (ExprSet { object, name, value }),
    {
        Self { object, name, value }
    }
}

impl<'a> ExprSuper<'a> {
    pub fn new(keyword: Token<'a>, method: Token<'a>) -> (node: Self)
        ensures
            node == (ExprSuper { keyword, method }),
    {
        Self { keyword, method }
    }
}

impl<'a> ExprThis<'a> {
    pub fn new(keyword: Token<'a>) -> (node: Self)
        ensures
            node == (ExprThis { keyword }),
    {
        Self { keyword }
    }
}

impl<'a> ExprUnary<'a> {
    pub fn new(operator: Token<'a>, value: Box<Expr<'a>>) -> (node: Self)
        ensures
            node == (ExprUnary { operator, value }),
    {
        Self { operator, value }
    }
}

impl<'a> ExprBinary<'a> {
    pub fn new(left: Box<Expr<'a>>, operator: Token<'a>, right: Box<Expr<'a>>) -> (node: Self)
        ensures
            node == (ExprBinary { left, operator, right }),
    {
        Self { left, operator, right }
    }
}

impl<'a> ExprCall<'a> {
    pub fn new(callee: Box<Expr<'a>>, paren: Token<'a>, arguments: Vec<Expr<'a>>) -> (node: Self)
        ensures
            node == (ExprCall { callee, paren, arguments }),
    {
        Self { callee, paren, arguments }
    }
}

impl<'a> ExprGet<'a> {
    pub fn new(object: Box<Expr<'a>>, name: Token<'a>) -> (node: Self)
        ensures
            node == (ExprGet { object, name }),
    {
        Self { object, name }
    }
}

impl<'a> ExprAssign<'a> {
    pub fn new(name: Token<'a>, value: Box<Expr<'a>>) -> (node: Self)
        ensures
            node == (ExprAssign { name, value }),
    {
        Self { name, value }
    }
}

impl<'a> ExprVariable<'a> {
    pub fn new(name: Token<'a>) -> (node: Self)
        ensures
            node == (ExprVariable { name }),
    {
        Self { name }
    }
}

impl<'a> StmtBlock<'a> {
    pub fn new(statements: Vec<Stmt<'a>>) -> (node: Self)
        ensures
            node == (StmtBlock { statements }),
    {
        Self { statements }
    }
}

impl<'a> StmtClass<'a> {
    pub fn new(name: Token<'a>, superclass: Option<Expr<'a>>, methods: Vec<StmtFunction<'a>>) -> (node: Self)
        ensures
            node == (StmtClass { name, superclass, methods }),
    {
        Self { name, superclass, methods }
    }
}

impl<'a> StmtExpression<'a> {
    pub fn new(expr: Expr<'a>) -> (node: Self)
        ensures
            node == (StmtExpression { expr }),
    {
        Self { expr }
    }
}

impl<'a> StmtFunction<'a> {
    pub fn new(name: Token<'a>, params: Vec<Token<'a>>, body: Vec<Stmt<'a>>) -> (node: Self)
        ensures
            node == (StmtFunction { name, params, body }),
    {
        Self { name, params, body }
    }
}

impl<'a> StmtIf<'a> {
    pub fn new(condition: Expr<'a>, then_branch: Box<Stmt<'a>>, else_branch: Option<Box<Stmt<'a>>>) -> (node: Self)
        ensures
            node == (StmtIf { condition, then_branch, else_branch }),
    {
        Self { condition, then_branch, else_branch }
    }
}

impl<'a> StmtPrint<'a> {
    pub fn new(expr: Expr<'a>) -> (node: Self)
        ensures
            node == (StmtPrint { expr }),
    {
        Self { expr }
    }
}

impl<'a> StmtReturn<'a> {
    pub fn new(keyword: Token<'a>, value: Option<Expr<'a>>) -> (node: Self)
        ensures
            node == (StmtReturn { keyword, value }),
    {
        Self { keyword, value }
    }
}

impl<'a> StmtVar<'a> {
    pub fn new(name: Token<'a>, initializer: Option<Expr<'a>>) -> (node: Self)
        ensures
            node == (StmtVar { name, initializer }),
    {
        Self { name, initializer }
    }
}

impl<'a> StmtWhile<'a> {
    pub fn new(condition: Expr<'a>, body: Box<Stmt<'a>>) -> (node: Self)
        ensures
            node == (StmtWhile { condition, body }),
    {
        Self { condition, body }
    }
}

} // verus!
