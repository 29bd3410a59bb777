//! What the resolver records fits the tree: where resolving succeeds on a
//! tree in which every use of a variable has a key of its own, the table of
//! depths fits every use in the tree.

use vstd::prelude::*;
use vstd::string::*;
use crate::ast::{Expr, Stmt, StmtFunction};
use crate::lex::Token;
use super::binding::{declared, defines};
use super::resolved::{
    class_scopes, expr_fits, exprs_fit, function_fits, is_declaration, methods_fit,
    optional_fits, parameters_scope, read_fits, scopes_after, scopes_after_all, single_scope,
    stmt_fits, stmts_fit, super_fits, use_fits,
};
use super::resolver::{ClassType, FunctionType};
use super::scoping::{
    begin_scope, declare, declare_parameters, define, depth_of, key_of, lemma_depth_is_in_scope,
    method_kind, resolve_expr, resolve_exprs, resolve_function, resolve_local, resolve_methods,
    resolve_optional, resolve_stmt, resolve_stmts, resolve_superclass, Resolving, Scope,
};
use super::uses::{
    lemma_expr_fits_same, lemma_function_fits_same, lemma_optional_fits_same, lemma_stmt_fits_same,
    same_on, uses_expr, uses_exprs, uses_functions, uses_optional, uses_stmt, uses_stmts,
};

verus! {

/// Whether no key is in both sets.
pub open spec fn apart(first: Set<u32>, second: Set<u32>) -> bool {
    forall|key: u32| !(#[trigger] first.contains(key) && second.contains(key))
}

/// Whether the expressions of `list` are plain and no two of them share a
/// key.
pub open spec fn plain_exprs(list: Seq<Expr>) -> bool
    decreases list,
{
    &&& forall|i: int| 0 <= i < list.len() ==> plain_expr(#[trigger] list[i])
    &&& forall|i: int, j: int|
        0 <= i < j < list.len() ==> apart(#[trigger] uses_expr(list[i]), #[trigger] uses_expr(list[j]))
}

/// Whether an expression is as the parser gives it: every use of a variable
/// in it has a key of its own, and `super` is written `super`.
pub open spec fn plain_expr(expr: Expr) -> bool
    decreases expr,
{
    match expr {
        Expr::Literal(_) => true,
        Expr::Grouping(e) => plain_expr(*e.value),
        Expr::Logical(e) => plain_expr(*e.left) && plain_expr(*e.right) && apart(
            uses_expr(*e.left),
            uses_expr(*e.right),
        ),
        Expr::PropertySet(e) => plain_expr(*e.object) && plain_expr(*e.value) && apart(
            uses_expr(*e.object),
            uses_expr(*e.value),
        ),
        Expr::Super(e) => e.keyword.lexeme@ == "super"@,
        Expr::This(e) => e.keyword.lexeme@ == "this"@,
        Expr::Unary(e) => plain_expr(*e.value),
        Expr::Binary(e) => plain_expr(*e.left) && plain_expr(*e.right) && apart(
            uses_expr(*e.left),
            uses_expr(*e.right),
        ),
        Expr::Call(e) => plain_expr(*e.callee) && plain_exprs(e.arguments@) && apart(
            uses_expr(*e.callee),
            uses_exprs(e.arguments@),
        ),
        Expr::Get(e) => plain_expr(*e.object),
        Expr::Assign(e) => plain_expr(*e.value) && !uses_expr(*e.value).contains(key_of(e.name)),
        Expr::Variable(_) => true,
    }
}

/// Whether every name of every scope but the innermost is defined.
pub open spec fn outer_settled(scopes: Seq<Scope>) -> bool {
    forall|i: int, name: Seq<char>|
        0 <= i < scopes.len() - 1 && (#[trigger] scopes[i].contains_key(name)) ==> scopes[i][name]
}

/// Whether every name of every scope is defined.
pub open spec fn settled(scopes: Seq<Scope>) -> bool {
    forall|i: int, name: Seq<char>|
        0 <= i < scopes.len() && (#[trigger] scopes[i].contains_key(name)) ==> scopes[i][name]
}

/// Whether every scope that holds `super` or `this` defines it, and every
/// scope that holds `super` lies right outside a scope that defines `this`.
pub open spec fn super_then_this(scopes: Seq<Scope>) -> bool {
    &&& forall|i: int|
        0 <= i < scopes.len() && (#[trigger] scopes[i]).contains_key("super"@) ==> scopes[i]["super"@]
            && i + 1 < scopes.len() && defines(scopes[i + 1], "this"@)
    &&& forall|i: int|
        0 <= i < scopes.len() && (#[trigger] scopes[i]).contains_key("this"@) ==> scopes[i]["this"@]
}

/// Whether a scope declares `super` wherever the class around is a subclass.
pub open spec fn subclass_has_super(state: Resolving) -> bool {
    state.current_class == ClassType::Subclass ==> depth_of(state.scopes, "super"@) is Some
}

/// A name that a scope declares is declared after one more declaration.
proof fn lemma_depth_kept_declared(scopes: Seq<Scope>, name: Seq<char>, defined: bool, other: Seq<char>)
    requires
        depth_of(scopes, other) is Some,
    ensures
        depth_of(declared(scopes, name, defined), other) is Some,
{
    if scopes.len() > 0 {
        let next = declared(scopes, name, defined);
        assert(next.drop_last() =~= scopes.drop_last());
    }
}

/// A name that a scope declares is declared inside one more scope.
proof fn lemma_depth_kept_pushed(scopes: Seq<Scope>, scope: Scope, other: Seq<char>)
    requires
        depth_of(scopes, other) is Some,
    ensures
        depth_of(scopes.push(scope), other) is Some,
{
    assert(scopes.push(scope).drop_last() =~= scopes);
}

/// Whether resolving has left everything but the table as it was, and the
/// table as it was for every key outside `keys`.
pub open spec fn kept(before: Resolving, after: Resolving, keys: Set<u32>) -> bool {
    &&& after.scopes == before.scopes
    &&& after.current_function == before.current_function
    &&& after.current_class == before.current_class
    &&& outside_same(before.locals, after.locals, keys)
}

/// Whether two tables record the same for every key outside `keys`.
pub open spec fn outside_same(first: Map<u32, usize>, second: Map<u32, usize>, keys: Set<u32>) -> bool {
    forall|key: u32|
        #![trigger first.contains_key(key)]
        #![trigger second.contains_key(key)]
        !keys.contains(key) ==> first.contains_key(key) == second.contains_key(key) && (
        first.contains_key(key) ==> first[key] == second[key])
}

/// Whether the table has recorded nothing yet for the keys of `keys`.
pub open spec fn unrecorded(locals: Map<u32, usize>, keys: Set<u32>) -> bool {
    forall|key: u32| #[trigger] keys.contains(key) ==> !locals.contains_key(key)
}

/// Tables that are the same outside some keys are the same on keys apart
/// from those.
pub proof fn lemma_outside_is_same_on(
    first: Map<u32, usize>,
    second: Map<u32, usize>,
    outside: Set<u32>,
    keys: Set<u32>,
)
    requires
        outside_same(first, second, outside),
        apart(keys, outside),
    ensures
        same_on(first, second, keys),
{
    assert forall|key: u32| #[trigger] keys.contains(key) implies first.contains_key(key)
        == second.contains_key(key) && (first.contains_key(key) ==> first[key] == second[key]) by {
        assert(!outside.contains(key));
    }
}

/// A table that has recorded nothing for some keys still has not after
/// resolving something apart from them.
pub proof fn lemma_still_unrecorded(
    first: Map<u32, usize>,
    second: Map<u32, usize>,
    outside: Set<u32>,
    keys: Set<u32>,
)
    requires
        outside_same(first, second, outside),
        apart(keys, outside),
        unrecorded(first, keys),
    ensures
        unrecorded(second, keys),
{
    assert forall|key: u32| #[trigger] keys.contains(key) implies !second.contains_key(key) by {
        assert(!outside.contains(key));
    }
}

/// Resolving a use records the depth of its name under its key, and
/// nothing else.
pub proof fn lemma_resolve_local(state: Resolving, key: u32, name: Seq<char>)
    requires
        !state.locals.contains_key(key),
    ensures
        use_fits(resolve_local(state, key, name).locals, state.scopes, key, name),
        kept(state, resolve_local(state, key, name), set![key]),
{
}

/// What resolving an expression records fits the expression.
pub proof fn lemma_resolve_expr(state: Resolving, expr: Expr)
    requires
        resolve_expr(state, expr) is Ok,
        plain_expr(expr),
        outer_settled(state.scopes),
        super_then_this(state.scopes),
        subclass_has_super(state),
        unrecorded(state.locals, uses_expr(expr)),
    ensures
        kept(state, resolve_expr(state, expr)->Ok_0, uses_expr(expr)),
        expr_fits(resolve_expr(state, expr)->Ok_0.locals, state.scopes, expr),
    decreases expr, 1nat,
{
    let after = resolve_expr(state, expr)->Ok_0;
    match expr {
        Expr::Literal(_) => {},
        Expr::Grouping(e) => {
            lemma_resolve_expr(state, *e.value);
        },
        Expr::Logical(e) => {
            lemma_resolve_pair(expr, state, *e.left, *e.right);
        },
        Expr::PropertySet(e) => {
            assert(uses_expr(*e.value) + uses_expr(*e.object) =~= uses_expr(expr));
            assert(apart(uses_expr(*e.value), uses_expr(*e.object)));
            lemma_resolve_pair(expr, state, *e.value, *e.object);
        },
        Expr::Super(e) => {
            let key = key_of(e.keyword);
            assert(uses_expr(expr).contains(key));
            lemma_resolve_local(state, key, "super"@);
            lemma_depth_is_in_scope(state.scopes, "super"@);
            if let Some(depth) = depth_of(state.scopes, "super"@) {
                let at = state.scopes.len() - 1 - depth;
                assert(state.scopes[at].contains_key("super"@));
                assert(defines(state.scopes[at + 1], "this"@));
            }
            assert(super_fits(after.locals, state.scopes, key));
        },
        Expr::This(e) => {
            let key = key_of(e.keyword);
            assert(uses_expr(expr).contains(key));
            lemma_resolve_local(state, key, e.keyword.lexeme@);
            lemma_depth_is_in_scope(state.scopes, e.keyword.lexeme@);
            if let Some(depth) = depth_of(state.scopes, "this"@) {
                let at = state.scopes.len() - 1 - depth;
                assert(state.scopes[at].contains_key("this"@));
            }
            assert(read_fits(after.locals, state.scopes, key, e.keyword.lexeme@));
        },
        Expr::Unary(e) => {
            lemma_resolve_expr(state, *e.value);
        },
        Expr::Binary(e) => {
            lemma_resolve_pair(expr, state, *e.left, *e.right);
        },
        Expr::Call(e) => {
            let callee = *e.callee;
            assert forall|key: u32| #[trigger] uses_expr(callee).contains(key) implies uses_expr(
                expr,
            ).contains(key) by {}
            assert forall|key: u32| #[trigger] uses_exprs(e.arguments@).contains(key) implies uses_expr(
                expr,
            ).contains(key) by {}
            lemma_resolve_expr(state, callee);
            let middle = resolve_expr(state, callee)->Ok_0;
            assert(uses_exprs_from(e.arguments@, 0) =~= uses_exprs(e.arguments@));
            assert(apart(uses_exprs(e.arguments@), uses_expr(callee)));
            lemma_still_unrecorded(
                state.locals,
                middle.locals,
                uses_expr(callee),
                uses_exprs(e.arguments@),
            );
            lemma_resolve_exprs(middle, e.arguments@, 0);
            lemma_outside_is_same_on(
                middle.locals,
                after.locals,
                uses_exprs(e.arguments@),
                uses_expr(callee),
            );
            lemma_expr_fits_same(middle.locals, after.locals, state.scopes, callee);
        },
        Expr::Get(e) => {
            lemma_resolve_expr(state, *e.object);
        },
        Expr::Assign(e) => {
            let key = key_of(e.name);
            let value = *e.value;
            assert(uses_expr(expr).contains(key));
            assert forall|k: u32| #[trigger] uses_expr(value).contains(k) implies uses_expr(
                expr,
            ).contains(k) by {}
            lemma_resolve_expr(state, value);
            let middle = resolve_expr(state, value)->Ok_0;
            assert(!middle.locals.contains_key(key));
            lemma_resolve_local(middle, key, e.name.lexeme@);
            lemma_outside_is_same_on(middle.locals, after.locals, set![key], uses_expr(value));
            lemma_expr_fits_same(middle.locals, after.locals, state.scopes, value);
        },
        Expr::Variable(e) => {
            let key = key_of(e.name);
            let name = e.name.lexeme@;
            assert(uses_expr(expr).contains(key));
            lemma_resolve_local(state, key, name);
            lemma_depth_is_in_scope(state.scopes, name);
            if let Some(depth) = depth_of(state.scopes, name) {
                let at = state.scopes.len() - 1 - depth;
                assert(state.scopes[at].contains_key(name));
                if depth == 0 {
                    assert(state.scopes[at] == state.scopes.last());
                }
                assert(defines(state.scopes[at], name));
            }
            assert(read_fits(after.locals, state.scopes, key, name));
        },
    }
}

/// What resolving two expressions, one after the other, records fits both.
proof fn lemma_resolve_pair(whole: Expr, state: Resolving, first: Expr, second: Expr)
    requires
        decreases_to!(whole => first),
        decreases_to!(whole => second),
        resolve_expr(state, first) is Ok,
        resolve_expr(resolve_expr(state, first)->Ok_0, second) is Ok,
        plain_expr(first),
        plain_expr(second),
        apart(uses_expr(first), uses_expr(second)),
        outer_settled(state.scopes),
        super_then_this(state.scopes),
        subclass_has_super(state),
        unrecorded(state.locals, uses_expr(first) + uses_expr(second)),
    ensures
        kept(
            state,
            resolve_expr(resolve_expr(state, first)->Ok_0, second)->Ok_0,
            uses_expr(first) + uses_expr(second),
        ),
        expr_fits(
            resolve_expr(resolve_expr(state, first)->Ok_0, second)->Ok_0.locals,
            state.scopes,
            first,
        ),
        expr_fits(
            resolve_expr(resolve_expr(state, first)->Ok_0, second)->Ok_0.locals,
            state.scopes,
            second,
        ),
    decreases whole, 0nat,
{
    let both = uses_expr(first) + uses_expr(second);
    assert forall|key: u32| #[trigger] uses_expr(first).contains(key) implies both.contains(key) by {}
    assert forall|key: u32| #[trigger] uses_expr(second).contains(key) implies both.contains(key) by {}
    lemma_resolve_expr(state, first);
    let middle = resolve_expr(state, first)->Ok_0;
    assert(apart(uses_expr(second), uses_expr(first)));
    lemma_still_unrecorded(state.locals, middle.locals, uses_expr(first), uses_expr(second));
    lemma_resolve_expr(middle, second);
    let after = resolve_expr(middle, second)->Ok_0;
    lemma_outside_is_same_on(middle.locals, after.locals, uses_expr(second), uses_expr(first));
    lemma_expr_fits_same(middle.locals, after.locals, state.scopes, first);
}

/// The keys of the uses of variables in the expressions of `list` from index
/// `from` on.
pub open spec fn uses_exprs_from(list: Seq<Expr>, from: int) -> Set<u32> {
    Set::new(
        |key: u32| exists|i: int| from <= i < list.len() && uses_expr(#[trigger] list[i]).contains(key),
    )
}

/// What resolving the expressions of a list records fits each of them.
pub proof fn lemma_resolve_exprs(state: Resolving, list: Seq<Expr>, from: int)
    requires
        0 <= from,
        resolve_exprs(state, list, from) is Ok,
        plain_exprs(list),
        outer_settled(state.scopes),
        super_then_this(state.scopes),
        subclass_has_super(state),
        unrecorded(state.locals, uses_exprs_from(list, from)),
    ensures
        kept(state, resolve_exprs(state, list, from)->Ok_0, uses_exprs_from(list, from)),
        forall|i: int|
            from <= i < list.len() ==> expr_fits(
                resolve_exprs(state, list, from)->Ok_0.locals,
                state.scopes,
                #[trigger] list[i],
            ),
        from == 0 ==> exprs_fit(resolve_exprs(state, list, from)->Ok_0.locals, state.scopes, list)
            && uses_exprs_from(list, 0) =~= uses_exprs(list),
    decreases list, list.len() - from,
{
    let after = resolve_exprs(state, list, from)->Ok_0;
    if from < list.len() {
        let head = list[from];
        let rest = uses_exprs_from(list, from + 1);
        assert forall|key: u32| #[trigger] uses_expr(head).contains(key) implies uses_exprs_from(
            list,
            from,
        ).contains(key) by {}
        assert forall|key: u32| #[trigger] rest.contains(key) implies uses_exprs_from(
            list,
            from,
        ).contains(key) by {}
        assert(apart(rest, uses_expr(head))) by {
            assert forall|key: u32| !(#[trigger] rest.contains(key) && uses_expr(head).contains(
                key,
            )) by {
                if rest.contains(key) && uses_expr(head).contains(key) {
                    let j = choose|j: int|
                        from + 1 <= j < list.len() && uses_expr(#[trigger] list[j]).contains(key);
                    assert(apart(uses_expr(list[from]), uses_expr(list[j])));
                }
            }
        }
        lemma_resolve_expr(state, head);
        let middle = resolve_expr(state, head)->Ok_0;
        lemma_still_unrecorded(state.locals, middle.locals, uses_expr(head), rest);
        lemma_resolve_exprs(middle, list, from + 1);
        lemma_outside_is_same_on(middle.locals, after.locals, rest, uses_expr(head));
        lemma_expr_fits_same(middle.locals, after.locals, state.scopes, head);
        assert forall|key: u32| !uses_exprs_from(list, from).contains(key) implies !uses_expr(
            head,
        ).contains(key) && !rest.contains(key) by {}
    }
    if from == 0 {
        assert(uses_exprs_from(list, 0) =~= uses_exprs(list));
        assert(exprs_fit(after.locals, state.scopes, list));
    }
}

/// Whether a name can be declared: it is neither `super` nor `this`.
pub open spec fn plain_name(name: Token) -> bool {
    name.lexeme@ != "super"@ && name.lexeme@ != "this"@
}

/// Whether an expression that may be absent is plain.
pub open spec fn plain_optional(expr: Option<Expr>) -> bool {
    match expr {
        Some(e) => plain_expr(e),
        None => true,
    }
}

/// Whether the statements of `list` are plain and no two of them share a
/// key.
pub open spec fn plain_stmts(list: Seq<Stmt>) -> bool
    decreases list,
{
    &&& forall|i: int| 0 <= i < list.len() ==> plain_stmt(#[trigger] list[i])
    &&& forall|i: int, j: int|
        0 <= i < j < list.len() ==> apart(#[trigger] uses_stmt(list[i]), #[trigger] uses_stmt(list[j]))
}

/// Whether the parameters and the body of a function are plain.
pub open spec fn plain_function(function: StmtFunction) -> bool
    decreases function,
{
    &&& forall|i: int| 0 <= i < function.params@.len() ==> plain_name(#[trigger] function.params@[i])
    &&& plain_stmts(function.body@)
}

/// Whether the functions of `list` are plain and no two of them share a key.
pub open spec fn plain_functions(list: Seq<StmtFunction>) -> bool
    decreases list,
{
    &&& forall|i: int| 0 <= i < list.len() ==> plain_function(#[trigger] list[i])
    &&& forall|i: int, j: int|
        0 <= i < j < list.len() ==> apart(
            #[trigger] uses_stmts(list[i].body@),
            #[trigger] uses_stmts(list[j].body@),
        )
}

/// Whether a statement is as the parser gives it: every use of a variable in
/// it has a key of its own, no declared name is `super` or `this`, and no
/// branch and no body of a loop is itself a declaration.
pub open spec fn plain_stmt(stmt: Stmt) -> bool
    decreases stmt,
{
    match stmt {
        Stmt::Block(s) => plain_stmts(s.statements@),
        Stmt::Class(s) => {
            &&& plain_name(s.name)
            &&& plain_optional(s.superclass)
            &&& plain_functions(s.methods@)
            &&& apart(uses_optional(s.superclass), uses_functions(s.methods@))
        },
        Stmt::Expression(s) => plain_expr(s.expr),
        Stmt::Function(s) => plain_name(s.name) && plain_function(s),
        Stmt::If(s) => {
            &&& plain_expr(s.condition)
            &&& plain_stmt(*s.then_branch)
            &&& !is_declaration(*s.then_branch)
            &&& apart(uses_expr(s.condition), uses_stmt(*s.then_branch))
            &&& match s.else_branch {
                Some(branch) => {
                    &&& plain_stmt(*branch)
                    &&& !is_declaration(*branch)
                    &&& apart(uses_expr(s.condition), uses_stmt(*branch))
                    &&& apart(uses_stmt(*s.then_branch), uses_stmt(*branch))
                },
                None => true,
            }
        },
        Stmt::Print(s) => plain_expr(s.expr),
        Stmt::Return(s) => plain_optional(s.value),
        Stmt::Var(s) => plain_name(s.name) && plain_optional(s.initializer),
        Stmt::While(s) => {
            &&& plain_expr(s.condition)
            &&& plain_stmt(*s.body)
            &&& !is_declaration(*s.body)
            &&& apart(uses_expr(s.condition), uses_stmt(*s.body))
        },
    }
}

/// Whether resolving has left the scopes `scopes`, the function and the class
/// around as they were, and the table as it was for every key outside
/// `keys`.
pub open spec fn moved(before: Resolving, after: Resolving, scopes: Seq<Scope>, keys: Set<u32>) -> bool {
    &&& after.scopes == scopes
    &&& after.current_function == before.current_function
    &&& after.current_class == before.current_class
    &&& outside_same(before.locals, after.locals, keys)
}

/// Declaring a name keeps the scopes orderly.
proof fn lemma_declared_orderly(scopes: Seq<Scope>, name: Token, defined: bool)
    requires
        settled(scopes),
        super_then_this(scopes),
        plain_name(name),
    ensures
        outer_settled(declared(scopes, name.lexeme@, defined)),
        super_then_this(declared(scopes, name.lexeme@, defined)),
        defined ==> settled(declared(scopes, name.lexeme@, defined)),
{
    let next = declared(scopes, name.lexeme@, defined);
    if scopes.len() > 0 {
        assert forall|i: int| 0 <= i < next.len() - 1 implies next[i] == scopes[i] by {}
        assert forall|i: int|
            0 <= i < next.len() && (#[trigger] next[i]).contains_key("super"@) implies next[i]["super"@]
            && i + 1 < next.len() && defines(next[i + 1], "this"@) by {
            assert(scopes[i].contains_key("super"@));
            if i + 1 == next.len() - 1 {
                assert(defines(scopes[i + 1], "this"@));
            }
        }
        assert forall|i: int|
            0 <= i < next.len() && (#[trigger] next[i]).contains_key("this"@) implies next[i]["this"@] by {
            assert(scopes[i].contains_key("this"@));
        }
        if defined {
            assert forall|i: int, other: Seq<char>|
                0 <= i < next.len() && (#[trigger] next[i].contains_key(other)) implies next[i][other] by {
                if i < next.len() - 1 || other != name.lexeme@ {
                    assert(scopes[i].contains_key(other));
                }
            }
        }
    }
}

/// A scope pushed onto orderly scopes keeps them orderly, where it defines
/// all it holds and holds `super` only at the outside of a scope for `this`.
proof fn lemma_pushed_orderly(scopes: Seq<Scope>, scope: Scope)
    requires
        settled(scopes),
        super_then_this(scopes),
        forall|name: Seq<char>| #[trigger] scope.contains_key(name) ==> scope[name],
        !scope.contains_key("super"@),
    ensures
        settled(scopes.push(scope)),
        super_then_this(scopes.push(scope)),
{
    let next = scopes.push(scope);
    assert forall|i: int|
        0 <= i < next.len() && (#[trigger] next[i]).contains_key("super"@) implies next[i]["super"@]
        && i + 1 < next.len() && defines(next[i + 1], "this"@) by {
        assert(scopes[i].contains_key("super"@));
        assert(next[i + 1] == scopes[i + 1]);
    }
}

/// The depth of a name does not depend on whether names are defined.
proof fn lemma_depth_of_declared(scopes: Seq<Scope>, name: Seq<char>, other: Seq<char>)
    ensures
        depth_of(declared(scopes, name, false), other) == depth_of(
            declared(scopes, name, true),
            other,
        ),
{
    if scopes.len() > 0 {
        let first = declared(scopes, name, false);
        let second = declared(scopes, name, true);
        assert(first.drop_last() =~= scopes.drop_last());
        assert(second.drop_last() =~= scopes.drop_last());
    }
}

/// The scope of the parameters from index `from` on, added to `scope`.
pub open spec fn with_parameters(scope: Scope, parameters: Seq<Token>, from: int) -> Scope
    decreases parameters.len() - from,
{
    if 0 <= from < parameters.len() {
        with_parameters(scope.insert(parameters[from].lexeme@, true), parameters, from + 1)
    } else {
        scope
    }
}

/// The parameters added to a scope are defined there, and nothing else is
/// changed.
proof fn lemma_with_parameters(scope: Scope, parameters: Seq<Token>, from: int)
    requires
        0 <= from,
    ensures
        forall|name: Seq<char>| #[trigger]
            with_parameters(scope, parameters, from).contains_key(name) <==> scope.contains_key(
                name,
            ) || exists|i: int| from <= i < parameters.len() && (#[trigger] parameters[i]).lexeme@ == name,
        forall|name: Seq<char>| #[trigger]
            with_parameters(scope, parameters, from).contains_key(name) ==> with_parameters(
                scope,
                parameters,
                from,
            )[name] == (if exists|i: int|
                from <= i < parameters.len() && (#[trigger] parameters[i]).lexeme@ == name {
                true
            } else {
                scope[name]
            }),
    decreases parameters.len() - from,
{
    if from < parameters.len() {
        let next = scope.insert(parameters[from].lexeme@, true);
        lemma_with_parameters(next, parameters, from + 1);
        let done = with_parameters(scope, parameters, from);
        assert(done == with_parameters(next, parameters, from + 1));
        assert forall|name: Seq<char>| #[trigger] done.contains_key(name) <==> scope.contains_key(
            name,
        ) || exists|i: int| from <= i < parameters.len() && (#[trigger] parameters[i]).lexeme@ == name by {
            if exists|i: int| from + 1 <= i < parameters.len() && (#[trigger] parameters[i]).lexeme@ == name {
                let i = choose|i: int| from + 1 <= i < parameters.len() && (#[trigger] parameters[i]).lexeme@ == name;
                assert(from <= i < parameters.len() && parameters[i].lexeme@ == name);
            }
            if exists|i: int| from <= i < parameters.len() && (#[trigger] parameters[i]).lexeme@ == name {
                let i = choose|i: int| from <= i < parameters.len() && (#[trigger] parameters[i]).lexeme@ == name;
                if i != from {
                    assert(from + 1 <= i < parameters.len() && parameters[i].lexeme@ == name);
                }
            }
        }
        assert forall|name: Seq<char>| #[trigger] done.contains_key(name) implies done[name] == (
        if exists|i: int| from <= i < parameters.len() && (#[trigger] parameters[i]).lexeme@ == name {
            true
        } else {
            scope[name]
        }) by {
            if exists|i: int| from + 1 <= i < parameters.len() && (#[trigger] parameters[i]).lexeme@ == name {
                let i = choose|i: int| from + 1 <= i < parameters.len() && (#[trigger] parameters[i]).lexeme@ == name;
                assert(from <= i < parameters.len() && parameters[i].lexeme@ == name);
            } else if parameters[from].lexeme@ == name {
                assert(from <= from < parameters.len() && parameters[from].lexeme@ == name);
            } else {
                if exists|i: int| from <= i < parameters.len() && (#[trigger] parameters[i]).lexeme@ == name {
                    let i = choose|i: int| from <= i < parameters.len() && (#[trigger] parameters[i]).lexeme@ == name;
                    assert(from + 1 <= i < parameters.len() && parameters[i].lexeme@ == name);
                }
            }
        }
    }
}

/// Declaring the parameters of a function adds them to the innermost scope
/// and changes nothing else.
proof fn lemma_declare_parameters(state: Resolving, parameters: Seq<Token>, from: int)
    requires
        0 <= from,
        state.scopes.len() > 0,
        declare_parameters(state, parameters, from) is Ok,
    ensures
        declare_parameters(state, parameters, from)->Ok_0 == (Resolving {
            scopes: state.scopes.drop_last().push(
                with_parameters(state.scopes.last(), parameters, from),
            ),
            ..state
        }),
    decreases parameters.len() - from,
{
    if from < parameters.len() {
        let name = parameters[from].lexeme@;
        let next = define(declare(state, parameters[from])->Ok_0, name);
        assert(next.scopes.drop_last() =~= state.scopes.drop_last());
        assert(next.scopes.last() =~= state.scopes.last().insert(name, true));
        lemma_declare_parameters(next, parameters, from + 1);
    } else {
        assert(state.scopes.drop_last().push(state.scopes.last()) =~= state.scopes);
    }
}

/// Statements leave every scope but the innermost as it is.
proof fn lemma_scopes_after_all_keeps_outer(scopes: Seq<Scope>, list: Seq<Stmt>, from: int)
    requires
        0 <= from,
    ensures
        scopes_after_all(scopes, list, from).len() == scopes.len(),
        scopes_after_all(scopes, list, from).drop_last() == scopes.drop_last(),
    decreases list.len() - from,
{
    if from < list.len() {
        let next = scopes_after(scopes, list[from]);
        assert(next.len() == scopes.len());
        assert(next.drop_last() =~= scopes.drop_last());
        lemma_scopes_after_all_keeps_outer(next, list, from + 1);
    }
}

/// The keys of the uses of variables in the statements of `list` from index
/// `from` on.
pub open spec fn uses_stmts_from(list: Seq<Stmt>, from: int) -> Set<u32> {
    Set::new(
        |key: u32| exists|i: int| from <= i < list.len() && uses_stmt(#[trigger] list[i]).contains(key),
    )
}

/// The keys of the uses of variables in the functions of `list` from index
/// `from` on.
pub open spec fn uses_functions_from(list: Seq<StmtFunction>, from: int) -> Set<u32> {
    Set::new(
        |key: u32|
            exists|i: int| from <= i < list.len() && uses_stmts((#[trigger] list[i]).body@).contains(key),
    )
}

/// What resolving an expression that may be absent records fits it.
proof fn lemma_resolve_optional(state: Resolving, expr: Option<Expr>)
    requires
        resolve_optional(state, expr) is Ok,
        plain_optional(expr),
        outer_settled(state.scopes),
        super_then_this(state.scopes),
        subclass_has_super(state),
        unrecorded(state.locals, uses_optional(expr)),
    ensures
        kept(state, resolve_optional(state, expr)->Ok_0, uses_optional(expr)),
        optional_fits(resolve_optional(state, expr)->Ok_0.locals, state.scopes, expr),
{
    if let Some(e) = expr {
        lemma_resolve_expr(state, e);
    }
}

/// Declaring a name while resolving is declaring it in the scopes.
proof fn lemma_declare(state: Resolving, name: Token)
    requires
        declare(state, name) is Ok,
    ensures
        declare(state, name)->Ok_0 == (Resolving {
            scopes: declared(state.scopes, name.lexeme@, false),
            ..state
        }),
        define(declare(state, name)->Ok_0, name.lexeme@) == (Resolving {
            scopes: declared(state.scopes, name.lexeme@, true),
            ..state
        }),
{
    super::soundness::lemma_declared_then_defined(state.scopes, name.lexeme@);
}

/// The scopes of the methods of a class are orderly.
proof fn lemma_class_scopes_orderly(scopes: Seq<Scope>, name: Token, subclass: bool)
    requires
        settled(scopes),
        super_then_this(scopes),
        plain_name(name),
    ensures
        settled(class_scopes(scopes, name.lexeme@, subclass).push(single_scope("this"@))),
        super_then_this(class_scopes(scopes, name.lexeme@, subclass).push(single_scope("this"@))),
{
    lemma_declared_orderly(scopes, name, true);
    let outer = declared(scopes, name.lexeme@, true);
    reveal_strlit("this");
    reveal_strlit("super");
    assert("this"@.len() != "super"@.len());
    assert(!single_scope("this"@).contains_key("super"@));
    if subclass {
        let middle = outer.push(single_scope("super"@));
        let inner = middle.push(single_scope("this"@));
        assert forall|i: int, other: Seq<char>|
            0 <= i < inner.len() && (#[trigger] inner[i].contains_key(other)) implies inner[i][other] by {
            if i < outer.len() {
                assert(outer[i].contains_key(other));
            }
        }
        assert forall|i: int|
            0 <= i < inner.len() && (#[trigger] inner[i]).contains_key("super"@) implies inner[i]["super"@]
            && i + 1 < inner.len() && defines(inner[i + 1], "this"@) by {
            if i < outer.len() {
                assert(outer[i].contains_key("super"@));
                assert(inner[i + 1] == outer[i + 1]);
            }
        }
    } else {
        lemma_pushed_orderly(outer, single_scope("this"@));
    }
}

/// What resolving a function records fits its body.
proof fn lemma_resolve_function(state: Resolving, function: StmtFunction, kind: FunctionType)
    requires
        resolve_function(state, function, kind) is Ok,
        plain_function(function),
        settled(state.scopes),
        super_then_this(state.scopes),
        subclass_has_super(state),
        unrecorded(state.locals, uses_stmts(function.body@)),
    ensures
        moved(
            state,
            resolve_function(state, function, kind)->Ok_0,
            state.scopes,
            uses_stmts(function.body@),
        ),
        function_fits(resolve_function(state, function, kind)->Ok_0.locals, state.scopes, function),
    decreases function, 0nat,
{
    let parameters = function.params@;
    let inner = begin_scope(Resolving { current_function: kind, ..state });
    lemma_declare_parameters(inner, parameters, 0);
    let declared_state = declare_parameters(inner, parameters, 0)->Ok_0;
    lemma_with_parameters(Map::empty(), parameters, 0);
    let scope = parameters_scope(parameters);
    assert(with_parameters(Map::empty(), parameters, 0) =~= scope);
    assert(inner.scopes.drop_last() =~= state.scopes);
    let body_scopes = state.scopes.push(scope);
    assert(declared_state.scopes == body_scopes);
    assert(!scope.contains_key("super"@)) by {
        if scope.contains_key("super"@) {
            let i = choose|i: int| 0 <= i < parameters.len() && (#[trigger] parameters[i]).lexeme@ == "super"@;
            assert(plain_name(parameters[i]));
        }
    }
    lemma_pushed_orderly(state.scopes, scope);
    if state.current_class == ClassType::Subclass {
        lemma_depth_kept_pushed(state.scopes, scope, "super"@);
    }
    assert(uses_stmts_from(function.body@, 0) =~= uses_stmts(function.body@));
    lemma_resolve_stmts(declared_state, function.body@, 0);
    lemma_scopes_after_all_keeps_outer(body_scopes, function.body@, 0);
    assert(body_scopes.drop_last() =~= state.scopes);
}

/// What resolving the methods of a list records fits each of them.
proof fn lemma_resolve_methods(state: Resolving, list: Seq<StmtFunction>, from: int)
    requires
        0 <= from,
        resolve_methods(state, list, from) is Ok,
        plain_functions(list),
        settled(state.scopes),
        super_then_this(state.scopes),
        subclass_has_super(state),
        unrecorded(state.locals, uses_functions_from(list, from)),
    ensures
        moved(
            state,
            resolve_methods(state, list, from)->Ok_0,
            state.scopes,
            uses_functions_from(list, from),
        ),
        forall|i: int|
            from <= i < list.len() ==> function_fits(
                resolve_methods(state, list, from)->Ok_0.locals,
                state.scopes,
                #[trigger] list[i],
            ),
    decreases list, list.len() - from,
{
    let after = resolve_methods(state, list, from)->Ok_0;
    if from < list.len() {
        let head = list[from];
        let head_uses = uses_stmts(head.body@);
        let rest = uses_functions_from(list, from + 1);
        assert forall|key: u32| #[trigger] head_uses.contains(key) implies uses_functions_from(
            list,
            from,
        ).contains(key) by {}
        assert forall|key: u32| #[trigger] rest.contains(key) implies uses_functions_from(
            list,
            from,
        ).contains(key) by {}
        assert(apart(rest, head_uses)) by {
            assert forall|key: u32| !(#[trigger] rest.contains(key) && head_uses.contains(key)) by {
                if rest.contains(key) && head_uses.contains(key) {
                    let j = choose|j: int|
                        from + 1 <= j < list.len() && uses_stmts((#[trigger] list[j]).body@).contains(key);
                    assert(apart(uses_stmts(list[from].body@), uses_stmts(list[j].body@)));
                }
            }
        }
        lemma_resolve_function(state, head, method_kind(head));
        let middle = resolve_function(state, head, method_kind(head))->Ok_0;
        lemma_still_unrecorded(state.locals, middle.locals, head_uses, rest);
        lemma_resolve_methods(middle, list, from + 1);
        lemma_outside_is_same_on(middle.locals, after.locals, rest, head_uses);
        lemma_function_fits_same(middle.locals, after.locals, state.scopes, head);
        assert forall|key: u32| !uses_functions_from(list, from).contains(key) implies !head_uses.contains(
            key,
        ) && !rest.contains(key) by {}
    }
}

/// What resolving the statements of a list records fits them, each in the
/// scopes that the statements before it leave.
pub proof fn lemma_resolve_stmts(state: Resolving, list: Seq<Stmt>, from: int)
    requires
        0 <= from,
        resolve_stmts(state, list, from) is Ok,
        plain_stmts(list),
        settled(state.scopes),
        super_then_this(state.scopes),
        subclass_has_super(state),
        unrecorded(state.locals, uses_stmts_from(list, from)),
    ensures
        moved(
            state,
            resolve_stmts(state, list, from)->Ok_0,
            scopes_after_all(state.scopes, list, from),
            uses_stmts_from(list, from),
        ),
        stmts_fit(resolve_stmts(state, list, from)->Ok_0.locals, state.scopes, list, from),
        settled(resolve_stmts(state, list, from)->Ok_0.scopes),
        super_then_this(resolve_stmts(state, list, from)->Ok_0.scopes),
        subclass_has_super(resolve_stmts(state, list, from)->Ok_0),
    decreases list, list.len() - from,
{
    let after = resolve_stmts(state, list, from)->Ok_0;
    if from < list.len() {
        let head = list[from];
        let rest = uses_stmts_from(list, from + 1);
        assert forall|key: u32| #[trigger] uses_stmt(head).contains(key) implies uses_stmts_from(
            list,
            from,
        ).contains(key) by {}
        assert forall|key: u32| #[trigger] rest.contains(key) implies uses_stmts_from(
            list,
            from,
        ).contains(key) by {}
        assert(apart(rest, uses_stmt(head))) by {
            assert forall|key: u32| !(#[trigger] rest.contains(key) && uses_stmt(head).contains(
                key,
            )) by {
                if rest.contains(key) && uses_stmt(head).contains(key) {
                    let j = choose|j: int|
                        from + 1 <= j < list.len() && uses_stmt(#[trigger] list[j]).contains(key);
                    assert(apart(uses_stmt(list[from]), uses_stmt(list[j])));
                }
            }
        }
        lemma_resolve_stmt(state, head);
        let middle = resolve_stmt(state, head)->Ok_0;
        lemma_still_unrecorded(state.locals, middle.locals, uses_stmt(head), rest);
        lemma_resolve_stmts(middle, list, from + 1);
        lemma_outside_is_same_on(middle.locals, after.locals, rest, uses_stmt(head));
        lemma_stmt_fits_same(middle.locals, after.locals, state.scopes, head);
        assert forall|key: u32| !uses_stmts_from(list, from).contains(key) implies !uses_stmt(
            head,
        ).contains(key) && !rest.contains(key) by {}
    }
}

/// What resolving a statement records fits the statement.
#[verifier::rlimit(100)]
#[verifier::spinoff_prover]
pub proof fn lemma_resolve_stmt(state: Resolving, stmt: Stmt)
    requires
        resolve_stmt(state, stmt) is Ok,
        plain_stmt(stmt),
        settled(state.scopes),
        super_then_this(state.scopes),
        subclass_has_super(state),
        unrecorded(state.locals, uses_stmt(stmt)),
    ensures
        moved(
            state,
            resolve_stmt(state, stmt)->Ok_0,
            scopes_after(state.scopes, stmt),
            uses_stmt(stmt),
        ),
        stmt_fits(resolve_stmt(state, stmt)->Ok_0.locals, state.scopes, stmt),
        settled(resolve_stmt(state, stmt)->Ok_0.scopes),
        super_then_this(resolve_stmt(state, stmt)->Ok_0.scopes),
        subclass_has_super(resolve_stmt(state, stmt)->Ok_0),
    decreases stmt, 0nat,
{
    let after = resolve_stmt(state, stmt)->Ok_0;
    let scopes = state.scopes;
    match stmt {
        Stmt::Block(s) => {
            lemma_pushed_orderly(scopes, Map::empty());
            if state.current_class == ClassType::Subclass {
                lemma_depth_kept_pushed(scopes, Map::empty(), "super"@);
            }
            assert(uses_stmts_from(s.statements@, 0) =~= uses_stmts(s.statements@));
            lemma_resolve_stmts(begin_scope(state), s.statements@, 0);
            lemma_scopes_after_all_keeps_outer(scopes.push(Map::empty()), s.statements@, 0);
            assert(scopes.push(Map::empty()).drop_last() =~= scopes);
        },
        Stmt::Class(s) => {
            lemma_resolve_class(state, stmt);
        },
        Stmt::Expression(s) => {
            lemma_resolve_expr(state, s.expr);
        },
        Stmt::Function(s) => {
            lemma_declare(state, s.name);
            lemma_declared_orderly(scopes, s.name, true);
            if state.current_class == ClassType::Subclass {
                lemma_depth_kept_declared(scopes, s.name.lexeme@, true, "super"@);
            }
            let named = define(declare(state, s.name)->Ok_0, s.name.lexeme@);
            lemma_resolve_function(named, s, FunctionType::Function);
        },
        Stmt::If(s) => {
            let test = uses_expr(s.condition);
            let then_uses = uses_stmt(*s.then_branch);
            assert forall|key: u32| #[trigger] test.contains(key) implies uses_stmt(stmt).contains(
                key,
            ) by {}
            assert forall|key: u32| #[trigger] then_uses.contains(key) implies uses_stmt(
                stmt,
            ).contains(key) by {}
            lemma_resolve_expr(state, s.condition);
            let tested = resolve_expr(state, s.condition)->Ok_0;
            assert(apart(then_uses, test));
            lemma_still_unrecorded(state.locals, tested.locals, test, then_uses);
            lemma_resolve_stmt(tested, *s.then_branch);
            let done = resolve_stmt(tested, *s.then_branch)->Ok_0;
            lemma_outside_is_same_on(tested.locals, done.locals, then_uses, test);
            lemma_expr_fits_same(tested.locals, done.locals, scopes, s.condition);
            match s.else_branch {
                Some(branch) => {
                    let else_uses = uses_stmt(*branch);
                    assert forall|key: u32| #[trigger] else_uses.contains(key) implies uses_stmt(
                        stmt,
                    ).contains(key) by {}
                    assert(apart(else_uses, test));
                    assert(apart(else_uses, then_uses));
                    lemma_still_unrecorded(state.locals, tested.locals, test, else_uses);
                    lemma_still_unrecorded(tested.locals, done.locals, then_uses, else_uses);
                    lemma_resolve_stmt(done, *branch);
                    lemma_outside_is_same_on(done.locals, after.locals, else_uses, test);
                    lemma_expr_fits_same(done.locals, after.locals, scopes, s.condition);
                    lemma_outside_is_same_on(done.locals, after.locals, else_uses, then_uses);
                    lemma_stmt_fits_same(done.locals, after.locals, scopes, *s.then_branch);
                },
                None => {},
            }
        },
        Stmt::Print(s) => {
            lemma_resolve_expr(state, s.expr);
        },
        Stmt::Return(s) => {
            if let Some(value) = s.value {
                lemma_resolve_expr(state, value);
            }
        },
        Stmt::Var(s) => {
            lemma_declare(state, s.name);
            lemma_declared_orderly(scopes, s.name, false);
            lemma_declared_orderly(scopes, s.name, true);
            if state.current_class == ClassType::Subclass {
                lemma_depth_kept_declared(scopes, s.name.lexeme@, false, "super"@);
                lemma_depth_kept_declared(scopes, s.name.lexeme@, true, "super"@);
            }
            let early = declare(state, s.name)->Ok_0;
            lemma_resolve_optional(early, s.initializer);
            super::soundness::lemma_declared_then_defined(scopes, s.name.lexeme@);
        },
        Stmt::While(s) => {
            let test = uses_expr(s.condition);
            let body_uses = uses_stmt(*s.body);
            assert forall|key: u32| #[trigger] test.contains(key) implies uses_stmt(stmt).contains(
                key,
            ) by {}
            assert forall|key: u32| #[trigger] body_uses.contains(key) implies uses_stmt(
                stmt,
            ).contains(key) by {}
            lemma_resolve_expr(state, s.condition);
            let tested = resolve_expr(state, s.condition)->Ok_0;
            assert(apart(body_uses, test));
            lemma_still_unrecorded(state.locals, tested.locals, test, body_uses);
            lemma_resolve_stmt(tested, *s.body);
            lemma_outside_is_same_on(tested.locals, after.locals, body_uses, test);
            lemma_expr_fits_same(tested.locals, after.locals, scopes, s.condition);
        },
    }
}

/// What resolving a class declaration records fits it.
proof fn lemma_resolve_class(state: Resolving, stmt: Stmt)
    requires
        stmt is Class,
        resolve_stmt(state, stmt) is Ok,
        plain_stmt(stmt),
        settled(state.scopes),
        super_then_this(state.scopes),
        subclass_has_super(state),
        unrecorded(state.locals, uses_stmt(stmt)),
    ensures
        moved(
            state,
            resolve_stmt(state, stmt)->Ok_0,
            scopes_after(state.scopes, stmt),
            uses_stmt(stmt),
        ),
        stmt_fits(resolve_stmt(state, stmt)->Ok_0.locals, state.scopes, stmt),
        settled(resolve_stmt(state, stmt)->Ok_0.scopes),
        super_then_this(resolve_stmt(state, stmt)->Ok_0.scopes),
        subclass_has_super(resolve_stmt(state, stmt)->Ok_0),
    decreases stmt, 0nat, 0nat,
{
    let s = stmt->Class_0;
    let after = resolve_stmt(state, stmt)->Ok_0;
    let scopes = state.scopes;
    let name = s.name.lexeme@;
    let parent_uses = uses_optional(s.superclass);
    let method_uses = uses_functions(s.methods@);
    assert forall|key: u32| #[trigger] parent_uses.contains(key) implies uses_stmt(stmt).contains(
        key,
    ) by {}
    assert forall|key: u32| #[trigger] method_uses.contains(key) implies uses_stmt(stmt).contains(
        key,
    ) by {}
    let classed = Resolving { current_class: ClassType::Class, ..state };
    lemma_declare(classed, s.name);
    lemma_declared_orderly(scopes, s.name, true);
    lemma_declared_orderly(scopes, s.name, false);
    let early = declared(scopes, name, false);
    let named = declared(scopes, name, true);
    let named_state = define(declare(classed, s.name)->Ok_0, name);
    assert(named_state.scopes == named);
    let outer = resolve_superclass(named_state, s.name, s.superclass)->Ok_0;
    let class_scope = class_scopes(scopes, name, s.superclass is Some);
    // The state in which the methods are resolved, and that the table fits
    // the superclass.
    match s.superclass {
        None => {
            assert(outer == named_state);
        },
        Some(Expr::Variable(parent)) => {
            let expr = Expr::Variable(parent);
            let key = key_of(parent.name);
            lemma_resolve_expr(named_state, expr);
            let next = resolve_expr(named_state, expr)->Ok_0;
            assert(outer.scopes =~= named.push(single_scope("super"@)));
            assert(outer.locals == next.locals);
            lemma_depth_of_declared(scopes, name, parent.name.lexeme@);
            lemma_depth_is_in_scope(named, parent.name.lexeme@);
            assert(read_fits(next.locals, early, key, parent.name.lexeme@)) by {
                if let Some(depth) = depth_of(named, parent.name.lexeme@) {
                    let at = named.len() - 1 - depth;
                    assert(defines(named[at], parent.name.lexeme@));
                    if at < named.len() - 1 {
                        assert(early[at] == named[at]);
                    }
                }
            }
            assert(expr_fits(next.locals, early, expr));
        },
        Some(_) => {},
    }
    assert(optional_fits(outer.locals, early, s.superclass));
    assert(outside_same(state.locals, outer.locals, parent_uses));
    assert(outer.scopes == class_scope);
    assert(outer.current_function == state.current_function);
    let inner = define(begin_scope(outer), "this"@);
    assert(inner.scopes =~= class_scope.push(single_scope("this"@)));
    lemma_class_scopes_orderly(scopes, s.name, s.superclass is Some);
    assert(subclass_has_super(inner)) by {
        reveal_strlit("this");
        reveal_strlit("super");
        assert("this"@.len() != "super"@.len());
        if s.superclass is Some {
            assert(inner.scopes.drop_last() =~= class_scope);
            assert(class_scope.last().contains_key("super"@));
            assert(depth_of(class_scope, "super"@) == Some(0nat));
        } else if s.superclass is None {
            assert(inner.current_class == ClassType::Class);
        }
    }
    if state.current_class == ClassType::Subclass {
        lemma_depth_kept_declared(scopes, name, true, "super"@);
    }
    assert(uses_functions_from(s.methods@, 0) =~= method_uses);
    assert(apart(method_uses, parent_uses));
    lemma_still_unrecorded(state.locals, outer.locals, parent_uses, method_uses);
    lemma_resolve_methods(inner, s.methods@, 0);
    let done = resolve_methods(inner, s.methods@, 0)->Ok_0;
    assert(methods_fit(done.locals, inner.scopes, s.methods@));
    lemma_outside_is_same_on(outer.locals, done.locals, method_uses, parent_uses);
    lemma_optional_fits_same(outer.locals, done.locals, early, s.superclass);
    assert(after.locals == done.locals);
    assert(inner.scopes.drop_last() =~= class_scope);
    if s.superclass is Some {
        assert(class_scope.drop_last() =~= named);
    }
    assert(after.scopes == named);
}

/// What the resolver records fits the program: where resolving a program
/// from the start succeeds, and the program is as the parser gives it, the
/// table of depths fits every use of a variable in the program: it holds the
/// depth of each name that a scope declares, and nothing for a global name.
/// It holds no other key: every key is that of a use of a variable in the
/// program.
pub proof fn lemma_resolved_table_fits(stmts: Seq<Stmt>)
    requires
        resolve_stmts(
            Resolving {
                scopes: Seq::empty(),
                locals: Map::empty(),
                current_function: FunctionType::NoFunction,
                current_class: ClassType::NoClass,
            },
            stmts,
            0,
        ) is Ok,
        plain_stmts(stmts),
    ensures
        stmts_fit(
            resolve_stmts(
                Resolving {
                    scopes: Seq::empty(),
                    locals: Map::empty(),
                    current_function: FunctionType::NoFunction,
                    current_class: ClassType::NoClass,
                },
                stmts,
                0,
            )->Ok_0.locals,
            Seq::empty(),
            stmts,
            0,
        ),
        forall|key: u32| #[trigger]
            resolve_stmts(
                Resolving {
                    scopes: Seq::empty(),
                    locals: Map::empty(),
                    current_function: FunctionType::NoFunction,
                    current_class: ClassType::NoClass,
                },
                stmts,
                0,
            )->Ok_0.locals.contains_key(key) ==> uses_stmts(stmts).contains(key),
{
    let start = Resolving {
        scopes: Seq::empty(),
        locals: Map::empty(),
        current_function: FunctionType::NoFunction,
        current_class: ClassType::NoClass,
    };
    lemma_resolve_stmts(start, stmts, 0);
    let after = resolve_stmts(start, stmts, 0)->Ok_0;
    assert forall|key: u32| #[trigger] after.locals.contains_key(key) implies uses_stmts(
        stmts,
    ).contains(key) by {
        if !uses_stmts_from(stmts, 0).contains(key) {
            assert(start.locals.contains_key(key) == after.locals.contains_key(key));
        }
    }
}

} // verus!
