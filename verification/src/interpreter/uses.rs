//! The uses of variables in a tree, by their keys, and what it is for a tree
//! to be one that the parser gives: every use has a key of its own, and a
//! declaration stands in a block, a body or the program itself.

use vstd::prelude::*;
use crate::ast::{Expr, Stmt, StmtFunction};
use super::resolved::{
    expr_fits, exprs_fit, function_fits, methods_fit, optional_fits, scopes_after, stmt_fits,
    stmts_fit,
};
use super::scoping::{key_of, Scope};

verus! {

/// The keys of the uses of variables in the expressions of `list`.
pub open spec fn uses_exprs(list: Seq<Expr>) -> Set<u32>
    decreases list,
{
    Set::new(|key: u32| exists|i: int| 0 <= i < list.len() && uses_expr(#[trigger] list[i]).contains(key))
}

/// The keys of the uses of variables in an expression.
pub open spec fn uses_expr(expr: Expr) -> Set<u32>
    decreases expr,
{
    match expr {
        Expr::Literal(_) => Set::empty(),
        Expr::Grouping(e) => uses_expr(*e.value),
        Expr::Logical(e) => uses_expr(*e.left) + uses_expr(*e.right),
        Expr::PropertySet(e) => uses_expr(*e.object) + uses_expr(*e.value),
        Expr::Super(e) => set![key_of(e.keyword)],
        Expr::This(e) => set![key_of(e.keyword)],
        Expr::Unary(e) => uses_expr(*e.value),
        Expr::Binary(e) => uses_expr(*e.left) + uses_expr(*e.right),
        Expr::Call(e) => uses_expr(*e.callee) + uses_exprs(e.arguments@),
        Expr::Get(e) => uses_expr(*e.object),
        Expr::Assign(e) => uses_expr(*e.value).insert(key_of(e.name)),
        Expr::Variable(e) => set![key_of(e.name)],
    }
}

/// The keys of the uses of variables in an expression that may be absent.
pub open spec fn uses_optional(expr: Option<Expr>) -> Set<u32> {
    match expr {
        Some(e) => uses_expr(e),
        None => Set::empty(),
    }
}

/// The keys of the uses of variables in the statements of `list`.
pub open spec fn uses_stmts(list: Seq<Stmt>) -> Set<u32>
    decreases list,
{
    Set::new(|key: u32| exists|i: int| 0 <= i < list.len() && uses_stmt(#[trigger] list[i]).contains(key))
}

/// The keys of the uses of variables in the bodies of the functions of
/// `list`.
pub open spec fn uses_functions(list: Seq<StmtFunction>) -> Set<u32>
    decreases list,
{
    Set::new(
        |key: u32|
            exists|i: int| 0 <= i < list.len() && uses_stmts((#[trigger] list[i]).body@).contains(key),
    )
}

/// The keys of the uses of variables in a statement.
pub open spec fn uses_stmt(stmt: Stmt) -> Set<u32>
    decreases stmt,
{
    match stmt {
        Stmt::Block(s) => uses_stmts(s.statements@),
        Stmt::Class(s) => uses_optional(s.superclass) + uses_functions(s.methods@),
        Stmt::Expression(s) => uses_expr(s.expr),
        Stmt::Function(s) => uses_stmts(s.body@),
        Stmt::If(s) => uses_expr(s.condition) + uses_stmt(*s.then_branch) + match s.else_branch {
            Some(branch) => uses_stmt(*branch),
            None => Set::empty(),
        },
        Stmt::Print(s) => uses_expr(s.expr),
        Stmt::Return(s) => uses_optional(s.value),
        Stmt::Var(s) => uses_optional(s.initializer),
        Stmt::While(s) => uses_expr(s.condition) + uses_stmt(*s.body),
    }
}

/// Whether two tables record the same for every key of `keys`.
pub open spec fn same_on(first: Map<u32, usize>, second: Map<u32, usize>, keys: Set<u32>) -> bool {
    forall|key: u32| #[trigger]
        keys.contains(key) ==> first.contains_key(key) == second.contains_key(key) && (
        first.contains_key(key) ==> first[key] == second[key])
}

/// Tables that record the same for some keys do so for fewer keys.
pub proof fn lemma_same_on_fewer(
    first: Map<u32, usize>,
    second: Map<u32, usize>,
    keys: Set<u32>,
    fewer: Set<u32>,
)
    requires
        same_on(first, second, keys),
        forall|key: u32| #[trigger] fewer.contains(key) ==> keys.contains(key),
    ensures
        same_on(first, second, fewer),
{
    assert forall|key: u32| #[trigger] fewer.contains(key) implies first.contains_key(key)
        == second.contains_key(key) && (first.contains_key(key) ==> first[key] == second[key]) by {
        assert(keys.contains(key));
    }
}

/// Whether a table fits an expression depends on what it records for the
/// uses in the expression only.
pub proof fn lemma_expr_fits_same(
    first: Map<u32, usize>,
    second: Map<u32, usize>,
    scopes: Seq<Scope>,
    expr: Expr,
)
    requires
        expr_fits(first, scopes, expr),
        same_on(first, second, uses_expr(expr)),
    ensures
        expr_fits(second, scopes, expr),
    decreases expr,
{
    match expr {
        Expr::Literal(_) => {},
        Expr::Grouping(e) => {
            lemma_expr_fits_same(first, second, scopes, *e.value);
        },
        Expr::Logical(e) => {
            lemma_same_on_fewer(first, second, uses_expr(expr), uses_expr(*e.left));
            lemma_same_on_fewer(first, second, uses_expr(expr), uses_expr(*e.right));
            lemma_expr_fits_same(first, second, scopes, *e.left);
            lemma_expr_fits_same(first, second, scopes, *e.right);
        },
        Expr::PropertySet(e) => {
            lemma_same_on_fewer(first, second, uses_expr(expr), uses_expr(*e.object));
            lemma_same_on_fewer(first, second, uses_expr(expr), uses_expr(*e.value));
            lemma_expr_fits_same(first, second, scopes, *e.object);
            lemma_expr_fits_same(first, second, scopes, *e.value);
        },
        Expr::Super(e) => {
            assert(uses_expr(expr).contains(key_of(e.keyword)));
        },
        Expr::This(e) => {
            assert(uses_expr(expr).contains(key_of(e.keyword)));
        },
        Expr::Unary(e) => {
            lemma_expr_fits_same(first, second, scopes, *e.value);
        },
        Expr::Binary(e) => {
            lemma_same_on_fewer(first, second, uses_expr(expr), uses_expr(*e.left));
            lemma_same_on_fewer(first, second, uses_expr(expr), uses_expr(*e.right));
            lemma_expr_fits_same(first, second, scopes, *e.left);
            lemma_expr_fits_same(first, second, scopes, *e.right);
        },
        Expr::Call(e) => {
            lemma_same_on_fewer(first, second, uses_expr(expr), uses_expr(*e.callee));
            lemma_same_on_fewer(first, second, uses_expr(expr), uses_exprs(e.arguments@));
            lemma_expr_fits_same(first, second, scopes, *e.callee);
            assert(exprs_fit(first, scopes, e.arguments@));
            assert forall|i: int| 0 <= i < e.arguments@.len() implies expr_fits(
                second,
                scopes,
                #[trigger] e.arguments@[i],
            ) by {
                assert(expr_fits(first, scopes, e.arguments@[i]));
                lemma_same_on_fewer(
                    first,
                    second,
                    uses_exprs(e.arguments@),
                    uses_expr(e.arguments@[i]),
                );
                lemma_expr_fits_same(first, second, scopes, e.arguments@[i]);
            }
            assert(exprs_fit(second, scopes, e.arguments@));
        },
        Expr::Get(e) => {
            lemma_expr_fits_same(first, second, scopes, *e.object);
        },
        Expr::Assign(e) => {
            lemma_same_on_fewer(first, second, uses_expr(expr), uses_expr(*e.value));
            lemma_expr_fits_same(first, second, scopes, *e.value);
            assert(uses_expr(expr).contains(key_of(e.name)));
        },
        Expr::Variable(e) => {
            assert(uses_expr(expr).contains(key_of(e.name)));
        },
    }
}

/// Whether a table fits an expression that may be absent depends on what it
/// records for the uses in the expression only.
pub proof fn lemma_optional_fits_same(
    first: Map<u32, usize>,
    second: Map<u32, usize>,
    scopes: Seq<Scope>,
    expr: Option<Expr>,
)
    requires
        optional_fits(first, scopes, expr),
        same_on(first, second, uses_optional(expr)),
    ensures
        optional_fits(second, scopes, expr),
{
    if let Some(e) = expr {
        lemma_expr_fits_same(first, second, scopes, e);
    }
}

/// Whether a table fits the statements of a list depends on what it records
/// for the uses in them only.
pub proof fn lemma_stmts_fit_same(
    first: Map<u32, usize>,
    second: Map<u32, usize>,
    scopes: Seq<Scope>,
    list: Seq<Stmt>,
    from: int,
)
    requires
        0 <= from,
        stmts_fit(first, scopes, list, from),
        same_on(first, second, uses_stmts(list)),
    ensures
        stmts_fit(second, scopes, list, from),
    decreases list, list.len() - from,
{
    if from < list.len() {
        lemma_same_on_fewer(first, second, uses_stmts(list), uses_stmt(list[from]));
        lemma_stmt_fits_same(first, second, scopes, list[from]);
        lemma_stmts_fit_same(first, second, scopes_after(scopes, list[from]), list, from + 1);
    }
}

/// Whether a table fits the methods of a list depends on what it records
/// for the uses in them only.
pub proof fn lemma_methods_fit_same(
    first: Map<u32, usize>,
    second: Map<u32, usize>,
    scopes: Seq<Scope>,
    list: Seq<StmtFunction>,
)
    requires
        methods_fit(first, scopes, list),
        same_on(first, second, uses_functions(list)),
    ensures
        methods_fit(second, scopes, list),
    decreases list, 1nat,
{
    assert forall|i: int| 0 <= i < list.len() implies function_fits(
        second,
        scopes,
        #[trigger] list[i],
    ) by {
        lemma_same_on_fewer(first, second, uses_functions(list), uses_stmts(list[i].body@));
        lemma_function_fits_same(first, second, scopes, list[i]);
    }
}

/// Whether a table fits the body of a function depends on what it records
/// for the uses in the body only.
pub proof fn lemma_function_fits_same(
    first: Map<u32, usize>,
    second: Map<u32, usize>,
    scopes: Seq<Scope>,
    function: StmtFunction,
)
    requires
        function_fits(first, scopes, function),
        same_on(first, second, uses_stmts(function.body@)),
    ensures
        function_fits(second, scopes, function),
    decreases function, 0nat,
{
    lemma_stmts_fit_same(
        first,
        second,
        scopes.push(super::resolved::parameters_scope(function.params@)),
        function.body@,
        0,
    );
}

/// Whether a table fits a statement depends on what it records for the uses
/// in the statement only.
pub proof fn lemma_stmt_fits_same(
    first: Map<u32, usize>,
    second: Map<u32, usize>,
    scopes: Seq<Scope>,
    stmt: Stmt,
)
    requires
        stmt_fits(first, scopes, stmt),
        same_on(first, second, uses_stmt(stmt)),
    ensures
        stmt_fits(second, scopes, stmt),
    decreases stmt, 0nat,
{
    match stmt {
        Stmt::Block(s) => {
            lemma_stmts_fit_same(first, second, scopes.push(Map::empty()), s.statements@, 0);
        },
        Stmt::Class(s) => {
            lemma_same_on_fewer(first, second, uses_stmt(stmt), uses_optional(s.superclass));
            lemma_same_on_fewer(first, second, uses_stmt(stmt), uses_functions(s.methods@));
            lemma_optional_fits_same(
                first,
                second,
                super::binding::declared(scopes, s.name.lexeme@, false),
                s.superclass,
            );
            lemma_methods_fit_same(
                first,
                second,
                super::resolved::class_scopes(scopes, s.name.lexeme@, s.superclass is Some).push(
                    super::resolved::single_scope("this"@),
                ),
                s.methods@,
            );
        },
        Stmt::Expression(s) => {
            lemma_expr_fits_same(first, second, scopes, s.expr);
        },
        Stmt::Function(s) => {
            lemma_function_fits_same(
                first,
                second,
                super::binding::declared(scopes, s.name.lexeme@, true),
                s,
            );
        },
        Stmt::If(s) => {
            lemma_same_on_fewer(first, second, uses_stmt(stmt), uses_expr(s.condition));
            lemma_same_on_fewer(first, second, uses_stmt(stmt), uses_stmt(*s.then_branch));
            lemma_expr_fits_same(first, second, scopes, s.condition);
            lemma_stmt_fits_same(first, second, scopes, *s.then_branch);
            if let Some(branch) = s.else_branch {
                lemma_same_on_fewer(first, second, uses_stmt(stmt), uses_stmt(*branch));
                lemma_stmt_fits_same(first, second, scopes, *branch);
            }
        },
        Stmt::Print(s) => {
            lemma_expr_fits_same(first, second, scopes, s.expr);
        },
        Stmt::Return(s) => {
            lemma_optional_fits_same(first, second, scopes, s.value);
        },
        Stmt::Var(s) => {
            lemma_optional_fits_same(
                first,
                second,
                super::binding::declared(scopes, s.name.lexeme@, false),
                s.initializer,
            );
        },
        Stmt::While(s) => {
            lemma_same_on_fewer(first, second, uses_stmt(stmt), uses_expr(s.condition));
            lemma_same_on_fewer(first, second, uses_stmt(stmt), uses_stmt(*s.body));
            lemma_expr_fits_same(first, second, scopes, s.condition);
            lemma_stmt_fits_same(first, second, scopes, *s.body);
        },
    }
}

} // verus!
