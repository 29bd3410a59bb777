//! The keys of the uses of variables in the trees that the grammar gives:
//! every use has the offset of its own token, so no two uses share a key.

use vstd::prelude::*;
use crate::ast::{ExprView, FunctionView, StmtView};
use crate::lex::Token;

verus! {

/// The keys of the uses of variables in the expressions of `list`.
pub open spec fn keys_of_exprs(list: Seq<ExprView>) -> Set<u32>
    decreases list,
{
    Set::new(|key: u32| exists|i: int| 0 <= i < list.len() && keys_of_expr(#[trigger] list[i]).contains(key))
}

/// The keys of the uses of variables in an expression: the offset of the
/// name or keyword of each.
pub open spec fn keys_of_expr(expr: ExprView) -> Set<u32>
    decreases expr,
{
    match expr {
        ExprView::Literal { .. } => Set::empty(),
        ExprView::Grouping { value } => keys_of_expr(*value),
        ExprView::Logical { left, right, .. } => keys_of_expr(*left) + keys_of_expr(*right),
        ExprView::PropertySet { object, value, .. } => keys_of_expr(*object) + keys_of_expr(*value),
        ExprView::Super { keyword, .. } => set![keyword.span.begin],
        ExprView::This { keyword } => set![keyword.span.begin],
        ExprView::Unary { value, .. } => keys_of_expr(*value),
        ExprView::Binary { left, right, .. } => keys_of_expr(*left) + keys_of_expr(*right),
        ExprView::Call { callee, arguments, .. } => keys_of_expr(*callee) + keys_of_exprs(arguments),
        ExprView::Get { object, .. } => keys_of_expr(*object),
        ExprView::Assign { name, value } => keys_of_expr(*value).insert(name.span.begin),
        ExprView::Variable { name } => set![name.span.begin],
    }
}

/// The keys of the uses of variables in an expression that may be absent.
pub open spec fn keys_of_optional(expr: Option<ExprView>) -> Set<u32> {
    match expr {
        Some(e) => keys_of_expr(e),
        None => Set::empty(),
    }
}

/// The keys of the uses of variables in the statements of `list`.
pub open spec fn keys_of_stmts(list: Seq<StmtView>) -> Set<u32>
    decreases list,
{
    Set::new(|key: u32| exists|i: int| 0 <= i < list.len() && keys_of_stmt(#[trigger] list[i]).contains(key))
}

/// The keys of the uses of variables in the bodies of the functions of
/// `list`.
pub open spec fn keys_of_functions(list: Seq<FunctionView>) -> Set<u32>
    decreases list,
{
    Set::new(
        |key: u32|
            exists|i: int| 0 <= i < list.len() && keys_of_stmts((#[trigger] list[i]).body).contains(key),
    )
}

/// The keys of the uses of variables in a statement.
pub open spec fn keys_of_stmt(stmt: StmtView) -> Set<u32>
    decreases stmt,
{
    match stmt {
        StmtView::Block { statements } => keys_of_stmts(statements),
        StmtView::Class { superclass, methods, .. } => keys_of_optional(superclass)
            + keys_of_functions(methods),
        StmtView::Expression { expr } => keys_of_expr(expr),
        StmtView::Function { function } => keys_of_stmts(function.body),
        StmtView::If { condition, then_branch, else_branch } => keys_of_expr(condition)
            + keys_of_stmt(*then_branch) + match else_branch {
            Some(branch) => keys_of_stmt(*branch),
            None => Set::empty(),
        },
        StmtView::Print { expr } => keys_of_expr(expr),
        StmtView::Return { value, .. } => keys_of_optional(value),
        StmtView::Var { initializer, .. } => keys_of_optional(initializer),
        StmtView::While { condition, body } => keys_of_expr(condition) + keys_of_stmt(*body),
    }
}

/// Whether no key is in both sets.
pub open spec fn disjoint(first: Set<u32>, second: Set<u32>) -> bool {
    forall|key: u32| !(#[trigger] first.contains(key) && second.contains(key))
}

/// Whether the expressions of `list` are neat and no two of them share a
/// key.
pub open spec fn neat_exprs(list: Seq<ExprView>) -> bool
    decreases list,
{
    &&& forall|i: int| 0 <= i < list.len() ==> neat_expr(#[trigger] list[i])
    &&& forall|i: int, j: int|
        0 <= i < j < list.len() ==> disjoint(
            #[trigger] keys_of_expr(list[i]),
            #[trigger] keys_of_expr(list[j]),
        )
}

/// Whether every use of a variable in the expression has a key of its own,
/// and `this` and `super` are written as such.
pub open spec fn neat_expr(expr: ExprView) -> bool
    decreases expr,
{
    match expr {
        ExprView::Literal { .. } => true,
        ExprView::Grouping { value } => neat_expr(*value),
        ExprView::Logical { left, right, .. } => neat_expr(*left) && neat_expr(*right) && disjoint(
            keys_of_expr(*left),
            keys_of_expr(*right),
        ),
        ExprView::PropertySet { object, value, .. } => neat_expr(*object) && neat_expr(*value)
            && disjoint(keys_of_expr(*object), keys_of_expr(*value)),
        ExprView::Super { keyword, .. } => keyword.lexeme@ == "super"@,
        ExprView::This { keyword } => keyword.lexeme@ == "this"@,
        ExprView::Unary { value, .. } => neat_expr(*value),
        ExprView::Binary { left, right, .. } => neat_expr(*left) && neat_expr(*right) && disjoint(
            keys_of_expr(*left),
            keys_of_expr(*right),
        ),
        ExprView::Call { callee, arguments, .. } => neat_expr(*callee) && neat_exprs(arguments)
            && disjoint(keys_of_expr(*callee), keys_of_exprs(arguments)),
        ExprView::Get { object, .. } => neat_expr(*object),
        ExprView::Assign { name, value } => neat_expr(*value) && !keys_of_expr(*value).contains(
            name.span.begin,
        ),
        ExprView::Variable { .. } => true,
    }
}

/// Whether an expression that may be absent is neat.
pub open spec fn neat_optional(expr: Option<ExprView>) -> bool {
    match expr {
        Some(e) => neat_expr(e),
        None => true,
    }
}

/// Whether a name is neither `super` nor `this`.
pub open spec fn neat_name(name: Token) -> bool {
    name.lexeme@ != "super"@ && name.lexeme@ != "this"@
}

/// Whether a statement declares a name.
pub open spec fn declares(stmt: StmtView) -> bool {
    stmt is Var || stmt is Function || stmt is Class
}

/// Whether the statements of `list` are neat and no two of them share a key.
pub open spec fn neat_stmts(list: Seq<StmtView>) -> bool
    decreases list,
{
    &&& forall|i: int| 0 <= i < list.len() ==> neat_stmt(#[trigger] list[i])
    &&& forall|i: int, j: int|
        0 <= i < j < list.len() ==> disjoint(
            #[trigger] keys_of_stmt(list[i]),
            #[trigger] keys_of_stmt(list[j]),
        )
}

/// Whether the parameters and the body of a function are neat.
pub open spec fn neat_function(function: FunctionView) -> bool
    decreases function,
{
    &&& forall|i: int| 0 <= i < function.params.len() ==> neat_name(#[trigger] function.params[i])
    &&& neat_stmts(function.body)
}

/// Whether the functions of `list` are neat and no two of them share a key.
pub open spec fn neat_functions(list: Seq<FunctionView>) -> bool
    decreases list,
{
    &&& forall|i: int| 0 <= i < list.len() ==> neat_function(#[trigger] list[i])
    &&& forall|i: int, j: int|
        0 <= i < j < list.len() ==> disjoint(
            #[trigger] keys_of_stmts(list[i].body),
            #[trigger] keys_of_stmts(list[j].body),
        )
}

/// Whether every use of a variable in the statement has a key of its own, no
/// declared name is `super` or `this`, and no branch and no body of a loop
/// is itself a declaration.
pub open spec fn neat_stmt(stmt: StmtView) -> bool
    decreases stmt,
{
    match stmt {
        StmtView::Block { statements } => neat_stmts(statements),
        StmtView::Class { name, superclass, methods } => {
            &&& neat_name(name)
            &&& neat_optional(superclass)
            &&& neat_functions(methods)
            &&& disjoint(keys_of_optional(superclass), keys_of_functions(methods))
        },
        StmtView::Expression { expr } => neat_expr(expr),
        StmtView::Function { function } => neat_name(function.name) && neat_function(function),
        StmtView::If { condition, then_branch, else_branch } => {
            &&& neat_expr(condition)
            &&& neat_stmt(*then_branch)
            &&& !declares(*then_branch)
            &&& disjoint(keys_of_expr(condition), keys_of_stmt(*then_branch))
            &&& match else_branch {
                Some(branch) => {
                    &&& neat_stmt(*branch)
                    &&& !declares(*branch)
                    &&& disjoint(keys_of_expr(condition), keys_of_stmt(*branch))
                    &&& disjoint(keys_of_stmt(*then_branch), keys_of_stmt(*branch))
                },
                None => true,
            }
        },
        StmtView::Print { expr } => neat_expr(expr),
        StmtView::Return { value, .. } => neat_optional(value),
        StmtView::Var { name, initializer } => neat_name(name) && neat_optional(initializer),
        StmtView::While { condition, body } => {
            &&& neat_expr(condition)
            &&& neat_stmt(*body)
            &&& !declares(*body)
            &&& disjoint(keys_of_expr(condition), keys_of_stmt(*body))
        },
    }
}

} // verus!
