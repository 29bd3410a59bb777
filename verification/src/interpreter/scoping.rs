//! The rules of static scoping: what resolving a tree does to the scope stack
//! and to the table of depths, and what it refuses.

use vstd::prelude::*;
use crate::ast::{
    Expr, ExprSuper, ExprThis, ExprVariable, Stmt, StmtClass, StmtFunction, StmtReturn, StmtVar,
};
use crate::lex::Token;
use super::error::ResolverError;
use super::resolver::{ClassType, FunctionType};

verus! {

/// One scope: the names declared in it, each with whether it is defined yet.
pub type Scope = Map<Seq<char>, bool>;

/// The state of resolving: the stack of open scopes, innermost last, the
/// depths recorded so far, and the kinds of the function and the class around.
pub struct Resolving {
    pub scopes: Seq<Scope>,
    pub locals: Map<u32, usize>,
    pub current_function: FunctionType,
    pub current_class: ClassType,
}

/// Where resolving stops at an error: the state in which the error was found,
/// with all that was recorded until then, and the error.
pub struct Halt<'a> {
    pub state: Resolving,
    pub error: ResolverError<'a>,
}

/// The key under which the depth of a variable use is recorded: the offset of
/// its name in the source.
pub open spec fn key_of(token: Token) -> u32 {
    token.span.begin
}

pub open spec fn begin_scope(state: Resolving) -> Resolving {
    Resolving { scopes: state.scopes.push(Map::empty()), ..state }
}

pub open spec fn end_scope(state: Resolving) -> Resolving {
    if state.scopes.len() > 0 {
        Resolving { scopes: state.scopes.drop_last(), ..state }
    } else {
        state
    }
}

/// Declares `name` in the innermost scope, not yet defined. Outside every
/// scope nothing is declared. A name that the scope holds already is an
/// error, which leaves the state as it is.
pub open spec fn declare<'a>(state: Resolving, name: Token<'a>) -> Result<Resolving, Halt<'a>> {
    if state.scopes.len() == 0 {
        Ok(state)
    } else if state.scopes.last().contains_key(name.lexeme@) {
        Err(Halt { state, error: ResolverError::SameNameVariableInLocalScope { token: name } })
    } else {
        Ok(
            Resolving {
                scopes: state.scopes.drop_last().push(
                    state.scopes.last().insert(name.lexeme@, false),
                ),
                ..state
            },
        )
    }
}

/// Marks `name` as defined in the innermost scope.
pub open spec fn define(state: Resolving, name: Seq<char>) -> Resolving {
    if state.scopes.len() == 0 {
        state
    } else {
        Resolving {
            scopes: state.scopes.drop_last().push(state.scopes.last().insert(name, true)),
            ..state
        }
    }
}

/// How many scopes lie between the innermost scope and the innermost scope
/// that holds `name`.
pub open spec fn depth_of(scopes: Seq<Scope>, name: Seq<char>) -> Option<nat>
    decreases scopes.len(),
{
    if scopes.len() == 0 {
        None
    } else if scopes.last().contains_key(name) {
        Some(0)
    } else {
        match depth_of(scopes.drop_last(), name) {
            Some(depth) => Some(depth + 1),
            None => None,
        }
    }
}

/// Records the depth of `name` under `key`, where a scope holds the name.
pub open spec fn resolve_local(state: Resolving, key: u32, name: Seq<char>) -> Resolving {
    match depth_of(state.scopes, name) {
        Some(depth) => Resolving { locals: state.locals.insert(key, depth as usize), ..state },
        None => state,
    }
}

pub open spec fn resolve_expr<'a>(state: Resolving, expr: Expr<'a>) -> Result<Resolving, Halt<'a>>
    decreases expr, 0nat,
{
    match expr {
        Expr::Literal(_) => Ok(state),
        Expr::Grouping(e) => resolve_expr(state, *e.value),
        Expr::Logical(e) => match resolve_expr(state, *e.left) {
            Ok(next) => resolve_expr(next, *e.right),
            Err(error) => Err(error),
        },
        Expr::PropertySet(e) => match resolve_expr(state, *e.value) {
            Ok(next) => resolve_expr(next, *e.object),
            Err(error) => Err(error),
        },
        Expr::Super(e) => {
            if state.current_class == ClassType::NoClass {
                Err(Halt { state, error: ResolverError::SuperOutsideClass { token: e.keyword } })
            } else if state.current_class != ClassType::Subclass {
                Err(Halt { state, error: ResolverError::SuperInClassWithoutSuperclass { token: e.keyword } })
            } else {
                Ok(resolve_local(state, key_of(e.keyword), e.keyword.lexeme@))
            }
        },
        Expr::This(e) => {
            if state.current_class == ClassType::NoClass {
                Err(Halt { state, error: ResolverError::ThisOutsideClass { token: e.keyword } })
            } else {
                Ok(resolve_local(state, key_of(e.keyword), e.keyword.lexeme@))
            }
        },
        Expr::Unary(e) => resolve_expr(state, *e.value),
        Expr::Binary(e) => match resolve_expr(state, *e.left) {
            Ok(next) => resolve_expr(next, *e.right),
            Err(error) => Err(error),
        },
        Expr::Call(e) => match resolve_expr(state, *e.callee) {
            Ok(next) => resolve_exprs(next, e.arguments@, 0),
            Err(error) => Err(error),
        },
        Expr::Get(e) => resolve_expr(state, *e.object),
        Expr::Assign(e) => match resolve_expr(state, *e.value) {
            Ok(next) => Ok(resolve_local(next, key_of(e.name), e.name.lexeme@)),
            Err(error) => Err(error),
        },
        Expr::Variable(e) => {
            if state.scopes.len() > 0 && state.scopes.last().contains_key(e.name.lexeme@)
                && !state.scopes.last()[e.name.lexeme@] {
                Err(Halt { state, error: ResolverError::VariableInOwnInitializer { token: e.name } })
            } else {
                Ok(resolve_local(state, key_of(e.name), e.name.lexeme@))
            }
        },
    }
}

/// Resolves the expressions of `list` from index `from` on, in order.
pub open spec fn resolve_exprs<'a>(state: Resolving, list: Seq<Expr<'a>>, from: int) -> Result<Resolving, Halt<'a>>
    decreases list, list.len() - from,
{
    if 0 <= from < list.len() {
        match resolve_expr(state, list[from]) {
            Ok(next) => resolve_exprs(next, list, from + 1),
            Err(error) => Err(error),
        }
    } else {
        Ok(state)
    }
}

/// Resolves an expression that may be absent.
pub open spec fn resolve_optional<'a>(state: Resolving, expr: Option<Expr<'a>>) -> Result<Resolving, Halt<'a>>
    decreases expr, 1nat,
{
    match expr {
        Some(e) => resolve_expr(state, e),
        None => Ok(state),
    }
}

/// Declares and defines the parameters of `list` from index `from` on.
pub open spec fn declare_parameters<'a>(
    state: Resolving,
    list: Seq<Token<'a>>,
    from: int,
) -> Result<Resolving, Halt<'a>>
    decreases list.len() - from,
{
    if 0 <= from < list.len() {
        match declare(state, list[from]) {
            Ok(next) => declare_parameters(define(next, list[from].lexeme@), list, from + 1),
            Err(error) => Err(error),
        }
    } else {
        Ok(state)
    }
}

/// Resolves the parameters and the body of a function in a scope of their
/// own, as a function of kind `kind`.
pub open spec fn resolve_function<'a>(
    state: Resolving,
    function: StmtFunction<'a>,
    kind: FunctionType,
) -> Result<Resolving, Halt<'a>>
    decreases function, 0nat,
{
    let inner = begin_scope(Resolving { current_function: kind, ..state });
    match declare_parameters(inner, function.params@, 0) {
        Err(error) => Err(error),
        Ok(declared) => match resolve_stmts(declared, function.body@, 0) {
            Err(error) => Err(error),
            Ok(done) => Ok(
                Resolving { current_function: state.current_function, ..end_scope(done) },
            ),
        },
    }
}

/// The kind of a method: an initializer where it is named `init`.
pub open spec fn method_kind(method: StmtFunction) -> FunctionType {
    if method.name.lexeme@ == "init"@ {
        FunctionType::Initializer
    } else {
        FunctionType::Method
    }
}

/// Resolves the methods of `list` from index `from` on, in order.
pub open spec fn resolve_methods<'a>(
    state: Resolving,
    list: Seq<StmtFunction<'a>>,
    from: int,
) -> Result<Resolving, Halt<'a>>
    decreases list, list.len() - from,
{
    if 0 <= from < list.len() {
        match resolve_function(state, list[from], method_kind(list[from])) {
            Ok(next) => resolve_methods(next, list, from + 1),
            Err(error) => Err(error),
        }
    } else {
        Ok(state)
    }
}

/// The state in which the methods of a class are resolved: after the
/// superclass, if any, with `super` in a scope of its own.
pub open spec fn resolve_superclass<'a>(
    state: Resolving,
    name: Token<'a>,
    superclass: Option<Expr<'a>>,
) -> Result<Resolving, Halt<'a>>
    decreases superclass, 2nat,
{
    match superclass {
        None => Ok(state),
        Some(Expr::Variable(parent)) => {
            if parent.name.lexeme@ == name.lexeme@ {
                Err(Halt { state, error: ResolverError::InheritanceCycle { token: parent.name } })
            } else {
                match resolve_expr(state, Expr::Variable(parent)) {
                    Err(error) => Err(error),
                    Ok(next) => Ok(
                        define(
                            begin_scope(Resolving { current_class: ClassType::Subclass, ..next }),
                            "super"@,
                        ),
                    ),
                }
            }
        },
        Some(_) => Err(Halt { state, error: ResolverError::InternalResolverError }),
    }
}

pub open spec fn resolve_stmt<'a>(state: Resolving, stmt: Stmt<'a>) -> Result<Resolving, Halt<'a>>
    decreases stmt, 0nat,
{
    match stmt {
        Stmt::Block(s) => match resolve_stmts(begin_scope(state), s.statements@, 0) {
            Ok(done) => Ok(end_scope(done)),
            Err(error) => Err(error),
        },
        Stmt::Class(s) => {
            match declare(Resolving { current_class: ClassType::Class, ..state }, s.name) {
                Err(error) => Err(error),
                Ok(declared) => match resolve_superclass(
                    define(declared, s.name.lexeme@),
                    s.name,
                    s.superclass,
                ) {
                    Err(error) => Err(error),
                    Ok(outer) => match resolve_methods(
                        define(begin_scope(outer), "this"@),
                        s.methods@,
                        0,
                    ) {
                        Err(error) => Err(error),
                        Ok(done) => {
                            let closed = end_scope(done);
                            let closed = if s.superclass is Some {
                                end_scope(closed)
                            } else {
                                closed
                            };
                            Ok(Resolving { current_class: state.current_class, ..closed })
                        },
                    },
                },
            }
        },
        Stmt::Expression(s) => resolve_expr(state, s.expr),
        Stmt::Function(s) => match declare(state, s.name) {
            Err(error) => Err(error),
            Ok(declared) => resolve_function(
                define(declared, s.name.lexeme@),
                s,
                FunctionType::Function,
            ),
        },
        Stmt::If(s) => match resolve_expr(state, s.condition) {
            Err(error) => Err(error),
            Ok(tested) => match resolve_stmt(tested, *s.then_branch) {
                Err(error) => Err(error),
                Ok(done) => match s.else_branch {
                    Some(branch) => resolve_stmt(done, *branch),
                    None => Ok(done),
                },
            },
        },
        Stmt::Print(s) => resolve_expr(state, s.expr),
        Stmt::Return(s) => {
            if state.current_function == FunctionType::NoFunction {
                Err(Halt { state, error: ResolverError::TopLevelReturn { token: s.keyword } })
            } else {
                match s.value {
                    Some(value) => {
                        if state.current_function == FunctionType::Initializer {
                            Err(Halt { state, error: ResolverError::ReturnInConstructor { token: s.keyword } })
                        } else {
                            resolve_expr(state, value)
                        }
                    },
                    None => Ok(state),
                }
            }
        },
        Stmt::Var(s) => match declare(state, s.name) {
            Err(error) => Err(error),
            Ok(declared) => match resolve_optional(declared, s.initializer) {
                Err(error) => Err(error),
                Ok(done) => Ok(define(done, s.name.lexeme@)),
            },
        },
        Stmt::While(s) => match resolve_expr(state, s.condition) {
            Err(error) => Err(error),
            Ok(tested) => resolve_stmt(tested, *s.body),
        },
    }
}

/// Resolves the statements of `list` from index `from` on, in order.
pub open spec fn resolve_stmts<'a>(state: Resolving, list: Seq<Stmt<'a>>, from: int) -> Result<Resolving, Halt<'a>>
    decreases list, list.len() - from,
{
    if 0 <= from < list.len() {
        match resolve_stmt(state, list[from]) {
            Ok(next) => resolve_stmts(next, list, from + 1),
            Err(error) => Err(error),
        }
    } else {
        Ok(state)
    }
}

/// A depth that is found for a name counts the scopes up to the innermost
/// scope that holds the name: the stack is deeper than the depth, the scope
/// at that depth holds the name, and no scope inside it does.
pub proof fn lemma_depth_is_in_scope(scopes: Seq<Scope>, name: Seq<char>)
    ensures
        match depth_of(scopes, name) {
            Some(depth) => {
                &&& depth < scopes.len()
                &&& scopes[scopes.len() - 1 - depth].contains_key(name)
                &&& forall|inner: int|
                    scopes.len() - 1 - depth < inner < scopes.len() ==> !(#[trigger] scopes[inner]).contains_key(
                        name,
                    )
            },
            None => forall|i: int| 0 <= i < scopes.len() ==> !(#[trigger] scopes[i]).contains_key(name),
        },
    decreases scopes.len(),
{
    if scopes.len() > 0 && !scopes.last().contains_key(name) {
        lemma_depth_is_in_scope(scopes.drop_last(), name);
        let rest = scopes.drop_last();
        assert forall|i: int| 0 <= i < rest.len() implies rest[i] == scopes[i] by {}
    }
}

/// The depth of a name that the scope at index `at` holds and no scope inside
/// it does.
pub proof fn lemma_depth_of_found(scopes: Seq<Scope>, at: int, name: Seq<char>)
    requires
        0 <= at < scopes.len(),
        scopes[at].contains_key(name),
        forall|inner: int| at < inner < scopes.len() ==> !(#[trigger] scopes[inner]).contains_key(name),
    ensures
        depth_of(scopes, name) == Some((scopes.len() - 1 - at) as nat),
    decreases scopes.len(),
{
    if at < scopes.len() - 1 {
        let rest = scopes.drop_last();
        assert forall|inner: int| at < inner < rest.len() implies !(#[trigger] rest[inner]).contains_key(
            name,
        ) by {
            assert(rest[inner] == scopes[inner]);
        }
        lemma_depth_of_found(rest, at, name);
    }
}

/// Every use of a variable for which resolving records a depth lies inside
/// more scopes than that depth, and the scope at that depth holds the name.
pub proof fn lemma_recorded_depth_is_in_scope(state: Resolving, key: u32, name: Seq<char>)
    requires
        depth_of(state.scopes, name) is Some,
        state.scopes.len() <= usize::MAX,
    ensures
        resolve_local(state, key, name).locals.contains_key(key),
        resolve_local(state, key, name).locals[key] < state.scopes.len(),
        state.scopes[state.scopes.len() - 1 - resolve_local(
            state,
            key,
            name,
        ).locals[key]].contains_key(name),
{
    lemma_depth_is_in_scope(state.scopes, name);
}

/// Only one declaration of a name is allowed in a scope: declaring a name
/// is an error exactly where the innermost scope holds the name already, and
/// the error leaves the state as it is. Outside every scope, among the
/// globals, a name may be declared again.
pub proof fn lemma_one_declaration_in_a_scope<'a>(state: Resolving, name: Token<'a>)
    ensures
        declare(state, name) is Err <==> state.scopes.len() > 0 && state.scopes.last().contains_key(
            name.lexeme@,
        ),
        declare(state, name) is Err ==> declare(state, name) == Err::<Resolving, Halt<'a>>(
            Halt { state, error: ResolverError::SameNameVariableInLocalScope { token: name } },
        ),
{
}

/// A variable declared in a local scope cannot be read in its own
/// initializer: `var name = name;` in a scope that does not hold the name
/// yet is an error at the name that is read.
pub proof fn lemma_own_initializer_is_refused<'a>(state: Resolving, name: Token<'a>, read: Token<'a>)
    requires
        state.scopes.len() > 0,
        !state.scopes.last().contains_key(name.lexeme@),
        read.lexeme@ == name.lexeme@,
    ensures
        resolve_stmt(
            state,
            Stmt::Var(
                StmtVar { name, initializer: Some(Expr::Variable(ExprVariable { name: read })) },
            ),
        ) matches Err(halt) && halt.error == (ResolverError::VariableInOwnInitializer {
            token: read,
        }),
{
    let declared = declare(state, name)->Ok_0;
    assert(declared.scopes.last().contains_key(read.lexeme@));
    assert(!declared.scopes.last()[read.lexeme@]);
    assert(resolve_optional(declared, Some(Expr::Variable(ExprVariable { name: read }))) is Err);
}

/// `return` outside every function is an error, and so is `return` with a
/// value inside an initializer; both leave the state as it is. Inside a
/// function, `return` without a value is accepted and changes nothing.
pub proof fn lemma_return_rules<'a>(state: Resolving, node: StmtReturn<'a>)
    ensures
        state.current_function == FunctionType::NoFunction ==> resolve_stmt(
            state,
            Stmt::Return(node),
        ) == Err::<Resolving, Halt<'a>>(
            Halt { state, error: ResolverError::TopLevelReturn { token: node.keyword } },
        ),
        state.current_function == FunctionType::Initializer && node.value is Some ==> resolve_stmt(
            state,
            Stmt::Return(node),
        ) == Err::<Resolving, Halt<'a>>(
            Halt { state, error: ResolverError::ReturnInConstructor { token: node.keyword } },
        ),
        state.current_function != FunctionType::NoFunction && node.value is None ==> resolve_stmt(
            state,
            Stmt::Return(node),
        ) == Ok::<Resolving, Halt<'a>>(state),
{
}

/// `this` is an error exactly outside every class, and `super` exactly
/// outside a class that has a superclass; the errors leave the state, and so
/// the table of depths, as it is.
pub proof fn lemma_this_and_super_rules<'a>(
    state: Resolving,
    this: ExprThis<'a>,
    parent: ExprSuper<'a>,
)
    ensures
        resolve_expr(state, Expr::This(this)) is Err <==> state.current_class == ClassType::NoClass,
        state.current_class == ClassType::NoClass ==> resolve_expr(state, Expr::This(this)) == Err::<
            Resolving,
            Halt<'a>,
        >(Halt { state, error: ResolverError::ThisOutsideClass { token: this.keyword } }),
        resolve_expr(state, Expr::Super(parent)) is Err <==> state.current_class
            != ClassType::Subclass,
        state.current_class == ClassType::NoClass ==> resolve_expr(state, Expr::Super(parent))
            == Err::<Resolving, Halt<'a>>(
            Halt { state, error: ResolverError::SuperOutsideClass { token: parent.keyword } },
        ),
        state.current_class == ClassType::Class ==> resolve_expr(state, Expr::Super(parent))
            == Err::<Resolving, Halt<'a>>(
            Halt {
                state,
                error: ResolverError::SuperInClassWithoutSuperclass { token: parent.keyword },
            },
        ),
{
}

/// A class cannot inherit from itself: a class whose superclass has the name
/// of the class is an error at the name of the superclass.
pub proof fn lemma_no_class_inherits_from_itself<'a>(
    state: Resolving,
    node: StmtClass<'a>,
    parent: ExprVariable<'a>,
)
    requires
        node.superclass == Some(Expr::Variable(parent)),
        parent.name.lexeme@ == node.name.lexeme@,
        !(state.scopes.len() > 0 && state.scopes.last().contains_key(node.name.lexeme@)),
    ensures
        resolve_stmt(state, Stmt::Class(node)) matches Err(halt) && halt.error == (
        ResolverError::InheritanceCycle { token: parent.name }),
{
    let declared = declare(Resolving { current_class: ClassType::Class, ..state }, node.name)->Ok_0;
    assert(resolve_superclass(define(declared, node.name.lexeme@), node.name, node.superclass)
        is Err);
}

} // verus!
