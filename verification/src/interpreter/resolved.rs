//! What it is for a table of depths to fit a tree: every use of a variable
//! has the depth of its name in the scopes around it, and none where no scope
//! declares the name.

use vstd::prelude::*;
use crate::ast::{Expr, Stmt, StmtFunction};
use crate::lex::Token;
use super::binding::{declared, defines};
use super::scoping::{depth_of, key_of, Scope};

verus! {

/// Whether the table records for the use under `key` the depth of `name` in
/// the scopes, and nothing where no scope declares the name.
pub open spec fn use_fits(locals: Map<u32, usize>, scopes: Seq<Scope>, key: u32, name: Seq<char>) -> bool {
    match depth_of(scopes, name) {
        Some(depth) => locals.contains_key(key) && locals[key] == depth as usize,
        None => !locals.contains_key(key),
    }
}

/// Whether the table fits a use that reads the name: the scope that the
/// depth leads to defines the name.
pub open spec fn read_fits(locals: Map<u32, usize>, scopes: Seq<Scope>, key: u32, name: Seq<char>) -> bool {
    &&& use_fits(locals, scopes, key, name)
    &&& depth_of(scopes, name) is Some ==> defines(
        scopes[scopes.len() - 1 - depth_of(scopes, name)->0],
        name,
    )
}

/// Whether the table fits a use of `super`: a scope declares `super`, the
/// scope that the depth leads to defines it, and the scope right inside it
/// defines `this`.
pub open spec fn super_fits(locals: Map<u32, usize>, scopes: Seq<Scope>, key: u32) -> bool {
    &&& read_fits(locals, scopes, key, "super"@)
    &&& depth_of(scopes, "super"@) is Some
    &&& depth_of(scopes, "super"@)->0 >= 1
    &&& defines(scopes[scopes.len() - depth_of(scopes, "super"@)->0], "this"@)
}

/// Whether the table fits every use of a variable in the expressions of
/// `list`.
pub open spec fn exprs_fit(locals: Map<u32, usize>, scopes: Seq<Scope>, list: Seq<Expr>) -> bool
    decreases list,
{
    forall|i: int| 0 <= i < list.len() ==> expr_fits(locals, scopes, #[trigger] list[i])
}

/// Whether the table fits every use of a variable in the expression, which
/// stands inside the scopes `scopes`.
pub open spec fn expr_fits(locals: Map<u32, usize>, scopes: Seq<Scope>, expr: Expr) -> bool
    decreases expr,
{
    match expr {
        Expr::Literal(_) => true,
        Expr::Grouping(e) => expr_fits(locals, scopes, *e.value),
        Expr::Logical(e) => expr_fits(locals, scopes, *e.left) && expr_fits(
            locals,
            scopes,
            *e.right,
        ),
        Expr::PropertySet(e) => expr_fits(locals, scopes, *e.object) && expr_fits(
            locals,
            scopes,
            *e.value,
        ),
        Expr::Super(e) => super_fits(locals, scopes, key_of(e.keyword)),
        Expr::This(e) => read_fits(locals, scopes, key_of(e.keyword), e.keyword.lexeme@),
        Expr::Unary(e) => expr_fits(locals, scopes, *e.value),
        Expr::Binary(e) => expr_fits(locals, scopes, *e.left) && expr_fits(
            locals,
            scopes,
            *e.right,
        ),
        Expr::Call(e) => expr_fits(locals, scopes, *e.callee) && exprs_fit(
            locals,
            scopes,
            e.arguments@,
        ),
        Expr::Get(e) => expr_fits(locals, scopes, *e.object),
        Expr::Assign(e) => expr_fits(locals, scopes, *e.value) && use_fits(
            locals,
            scopes,
            key_of(e.name),
            e.name.lexeme@,
        ),
        Expr::Variable(e) => read_fits(locals, scopes, key_of(e.name), e.name.lexeme@),
    }
}

/// Whether the table fits an expression that may be absent.
pub open spec fn optional_fits(locals: Map<u32, usize>, scopes: Seq<Scope>, expr: Option<Expr>) -> bool {
    match expr {
        Some(e) => expr_fits(locals, scopes, e),
        None => true,
    }
}

/// Whether the statement declares a name in the scope it stands in.
pub open spec fn is_declaration(stmt: Stmt) -> bool {
    stmt is Var || stmt is Function || stmt is Class
}

/// The scopes after a statement: a declaration adds its name to the
/// innermost scope.
pub open spec fn scopes_after(scopes: Seq<Scope>, stmt: Stmt) -> Seq<Scope> {
    match stmt {
        Stmt::Var(s) => declared(scopes, s.name.lexeme@, true),
        Stmt::Function(s) => declared(scopes, s.name.lexeme@, true),
        Stmt::Class(s) => declared(scopes, s.name.lexeme@, true),
        _ => scopes,
    }
}

/// The scopes after the statements of `list` from index `from` on.
pub open spec fn scopes_after_all(scopes: Seq<Scope>, list: Seq<Stmt>, from: int) -> Seq<Scope>
    decreases list.len() - from,
{
    if 0 <= from < list.len() {
        scopes_after_all(scopes_after(scopes, list[from]), list, from + 1)
    } else {
        scopes
    }
}

/// The scope of the parameters of a function: each of them, defined.
pub open spec fn parameters_scope(parameters: Seq<Token>) -> Scope {
    Map::new(
        |name: Seq<char>|
            exists|i: int| 0 <= i < parameters.len() && (#[trigger] parameters[i]).lexeme@ == name,
        |name: Seq<char>| true,
    )
}

/// The scope that holds one name, defined.
pub open spec fn single_scope(name: Seq<char>) -> Scope {
    Map::empty().insert(name, true)
}

/// The scopes that the methods of a class close over: the scopes around the
/// class with its name declared and, for a subclass, a scope for `super`.
pub open spec fn class_scopes(scopes: Seq<Scope>, name: Seq<char>, subclass: bool) -> Seq<Scope> {
    if subclass {
        declared(scopes, name, true).push(single_scope("super"@))
    } else {
        declared(scopes, name, true)
    }
}

/// Whether the table fits the body of a function that is declared inside the
/// scopes `scopes`: the body stands in one more scope, that of the
/// parameters.
pub open spec fn function_fits(locals: Map<u32, usize>, scopes: Seq<Scope>, function: StmtFunction) -> bool
    decreases function, 0nat,
{
    stmts_fit(locals, scopes.push(parameters_scope(function.params@)), function.body@, 0)
}

/// Whether the table fits the methods of `list`, which stand inside the
/// scopes `scopes`.
pub open spec fn methods_fit(locals: Map<u32, usize>, scopes: Seq<Scope>, list: Seq<StmtFunction>) -> bool
    decreases list, 0nat,
{
    forall|i: int| 0 <= i < list.len() ==> function_fits(locals, scopes, #[trigger] list[i])
}

/// Whether the table fits every use of a variable in the statement, which
/// stands inside the scopes `scopes`. A branch or the body of a loop that is
/// itself a declaration fits no table.
pub open spec fn stmt_fits(locals: Map<u32, usize>, scopes: Seq<Scope>, stmt: Stmt) -> bool
    decreases stmt, 0nat,
{
    match stmt {
        Stmt::Block(s) => stmts_fit(locals, scopes.push(Map::empty()), s.statements@, 0),
        Stmt::Class(s) => {
            &&& optional_fits(locals, declared(scopes, s.name.lexeme@, false), s.superclass)
            &&& methods_fit(
                locals,
                class_scopes(scopes, s.name.lexeme@, s.superclass is Some).push(
                    single_scope("this"@),
                ),
                s.methods@,
            )
        },
        Stmt::Expression(s) => expr_fits(locals, scopes, s.expr),
        Stmt::Function(s) => function_fits(locals, declared(scopes, s.name.lexeme@, true), s),
        Stmt::If(s) => {
            &&& expr_fits(locals, scopes, s.condition)
            &&& !is_declaration(*s.then_branch)
            &&& stmt_fits(locals, scopes, *s.then_branch)
            &&& match s.else_branch {
                Some(branch) => !is_declaration(*branch) && stmt_fits(locals, scopes, *branch),
                None => true,
            }
        },
        Stmt::Print(s) => expr_fits(locals, scopes, s.expr),
        Stmt::Return(s) => optional_fits(locals, scopes, s.value),
        Stmt::Var(s) => optional_fits(
            locals,
            declared(scopes, s.name.lexeme@, false),
            s.initializer,
        ),
        Stmt::While(s) => {
            &&& expr_fits(locals, scopes, s.condition)
            &&& !is_declaration(*s.body)
            &&& stmt_fits(locals, scopes, *s.body)
        },
    }
}

/// Whether the table fits the statements of `list` from index `from` on,
/// each inside the scopes that the statements before it leave.
pub open spec fn stmts_fit(locals: Map<u32, usize>, scopes: Seq<Scope>, list: Seq<Stmt>, from: int) -> bool
    decreases list, list.len() - from,
{
    if 0 <= from < list.len() {
        stmt_fits(locals, scopes, list[from]) && stmts_fit(
            locals,
            scopes_after(scopes, list[from]),
            list,
            from + 1,
        )
    } else {
        true
    }
}

} // verus!
