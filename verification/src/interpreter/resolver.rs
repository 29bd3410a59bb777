//! The resolver: a pass over the tree that binds every use of a variable to
//! the scope that declares it.

use std::collections::HashMap;
use vstd::prelude::*;
use crate::ast::{Expr, ExprSuper, ExprThis, ExprVariable, Stmt, StmtClass, StmtFunction, StmtReturn, StmtVar};
use crate::lex::Token;
use crate::names::NameTable;
use crate::text::str_eq;
use super::error::ResolverError;
use super::scoping;
use super::scoping::{Halt, Resolving, Scope};

verus! {

broadcast use vstd::std_specs::hash::group_hash_axioms;

/// The kind of the function that encloses the code being resolved.
#[derive(Debug, Default, Copy, Clone, PartialEq, Eq, Structural)]
pub enum FunctionType {
    #[default]
    NoFunction,
    Function,
    Initializer,
    Method,
}

/// The kind of the class that encloses the code being resolved.
#[derive(Debug, Default, Copy, Clone, PartialEq, Eq, Structural)]
pub enum ClassType {
    #[default]
    NoClass,
    Class,
    Subclass,
}

/// The views of a stack of scopes.
pub open spec fn scopes_view(scopes: Seq<NameTable<bool>>) -> Seq<Scope> {
    Seq::new(scopes.len(), |i: int| scopes[i]@)
}

/// Walks a tree and records, for every use of a local variable, how many
/// scopes lie between the use and the declaration.
pub struct Resolver<'a> {
    scopes: Vec<NameTable<'a, bool>>,
    locals: HashMap<u32, usize>,
    current_function: FunctionType,
    current_class: ClassType,
}

impl<'a> View for Resolver<'a> {
    type V = Resolving;

    closed spec fn view(&self) -> Resolving {
        Resolving {
            scopes: scopes_view(self.scopes@),
            locals: self.locals@,
            current_function: self.current_function,
            current_class: self.current_class,
        }
    }
}

/// Whether `outcome` and the resolver after it are what the rules give: on
/// success the state that they end in; on an error that error, and the
/// state in which it was found.
pub open spec fn follows<'a>(
    outcome: Result<(), ResolverError<'a>>,
    after: Resolving,
    rule: Result<Resolving, Halt<'a>>,
) -> bool {
    match rule {
        Ok(state) => outcome is Ok && after == state,
        Err(halt) => outcome == Err::<(), ResolverError<'a>>(halt.error) && after == halt.state,
    }
}

impl<'a> Resolver<'a> {
    /// A resolver outside every scope, function and class, with no depth
    /// recorded.
    pub fn new() -> (resolver: Self)
        ensures
            resolver@ == (Resolving {
                scopes: Seq::empty(),
                locals: Map::empty(),
                current_function: FunctionType::NoFunction,
                current_class: ClassType::NoClass,
            }),
    {
        let resolver = Self {
            scopes: Vec::new(),
            locals: HashMap::new(),
            current_function: FunctionType::NoFunction,
            current_class: ClassType::NoClass,
        };
        assert(scopes_view(resolver.scopes@) =~= Seq::empty());
        resolver
    }

    /// Resolves the statements in order and stops at the first error. The
    /// resolver is then as it was when the error was found: the table holds
    /// the depths recorded until then and no other. Where a fresh resolver
    /// succeeds on a program as the parser gives it, the table fits the
    /// program and holds keys of uses of variables in the program only.
    pub fn resolve(&mut self, stmts: &[Stmt<'a>]) -> (outcome: Result<(), ResolverError<'a>>)
        ensures
            follows(outcome, final(self)@, scoping::resolve_stmts(old(self)@, stmts@, 0)),
            outcome is Ok && super::recording::plain_stmts(stmts@) && old(self)@ == (Resolving {
                scopes: Seq::empty(),
                locals: Map::empty(),
                current_function: FunctionType::NoFunction,
                current_class: ClassType::NoClass,
            }) ==> super::resolved::stmts_fit(final(self)@.locals, Seq::empty(), stmts@, 0)
                && forall|key: u32| #[trigger]
                final(self)@.locals.contains_key(key) ==> super::uses::uses_stmts(stmts@).contains(
                    key,
                ),
    {
        proof {
            if scoping::resolve_stmts(old(self)@, stmts@, 0) is Ok && super::recording::plain_stmts(
                stmts@,
            ) && old(self)@ == (Resolving {
                scopes: Seq::empty(),
                locals: Map::empty(),
                current_function: FunctionType::NoFunction,
                current_class: ClassType::NoClass,
            }) {
                super::recording::lemma_resolved_table_fits(stmts@);
            }
        }
        self.resolve_stmts(stmts)
    }

    /// The depths recorded, keyed by the offset of each variable's name.
    pub fn get_locals(self) -> (locals: HashMap<u32, usize>)
        ensures
            locals@ == self@.locals,
    {
        self.locals
    }

    fn resolve_stmts(&mut self, stmts: &[Stmt<'a>]) -> (outcome: Result<(), ResolverError<'a>>)
        ensures
            follows(outcome, final(self)@, scoping::resolve_stmts(old(self)@, stmts@, 0)),
        decreases stmts@, stmts@.len(),
    {
        let mut i: usize = 0;
        while i < stmts.len()
            invariant
                i <= stmts@.len(),
                scoping::resolve_stmts(self@, stmts@, i as int) == scoping::resolve_stmts(
                    old(self)@,
                    stmts@,
                    0,
                ),
            decreases stmts@.len() - i,
        {
            match self.resolve_stmt(&stmts[i]) {
                Ok(()) => {},
                Err(error) => {
                    return Err(error);
                },
            }
            i += 1;
        }
        Ok(())
    }

    fn resolve_exprs(&mut self, exprs: &[Expr<'a>]) -> (outcome: Result<(), ResolverError<'a>>)
        ensures
            follows(outcome, final(self)@, scoping::resolve_exprs(old(self)@, exprs@, 0)),
        decreases exprs@, exprs@.len(),
    {
        let mut i: usize = 0;
        while i < exprs.len()
            invariant
                i <= exprs@.len(),
                scoping::resolve_exprs(self@, exprs@, i as int) == scoping::resolve_exprs(
                    old(self)@,
                    exprs@,
                    0,
                ),
            decreases exprs@.len() - i,
        {
            match self.resolve_expr(&exprs[i]) {
                Ok(()) => {},
                Err(error) => {
                    return Err(error);
                },
            }
            i += 1;
        }
        Ok(())
    }

    fn resolve_stmt(&mut self, stmt: &Stmt<'a>) -> (outcome: Result<(), ResolverError<'a>>)
        ensures
            follows(outcome, final(self)@, scoping::resolve_stmt(old(self)@, *stmt)),
        decreases *stmt, 0nat,
    {
        match stmt {
            Stmt::Block(node) => {
                self.begin_scope();
                match self.resolve_stmts(node.statements.as_slice()) {
                    Ok(()) => {},
                    Err(error) => {
                        return Err(error);
                    },
                }
                self.end_scope();
                Ok(())
            },
            Stmt::Class(node) => self.visit_class(node),
            Stmt::Expression(node) => self.resolve_expr(&node.expr),
            Stmt::Function(node) => {
                match self.declare(&node.name) {
                    Ok(()) => {},
                    Err(error) => {
                        return Err(error);
                    },
                }
                self.define(node.name.lexeme);
                self.resolve_function(node, FunctionType::Function)
            },
            Stmt::If(node) => {
                match self.resolve_expr(&node.condition) {
                    Ok(()) => {},
                    Err(error) => {
                        return Err(error);
                    },
                }
                match self.resolve_stmt(&node.then_branch) {
                    Ok(()) => {},
                    Err(error) => {
                        return Err(error);
                    },
                }
                match &node.else_branch {
                    Some(branch) => self.resolve_stmt(branch),
                    None => Ok(()),
                }
            },
            Stmt::Print(node) => self.resolve_expr(&node.expr),
            Stmt::Return(node) => self.visit_return(node),
            Stmt::Var(node) => self.visit_var(node),
            Stmt::While(node) => {
                match self.resolve_expr(&node.condition) {
                    Ok(()) => {},
                    Err(error) => {
                        return Err(error);
                    },
                }
                self.resolve_stmt(&node.body)
            },
        }
    }

    fn resolve_expr(&mut self, expr: &Expr<'a>) -> (outcome: Result<(), ResolverError<'a>>)
        ensures
            follows(outcome, final(self)@, scoping::resolve_expr(old(self)@, *expr)),
        decreases *expr, 0nat,
    {
        match expr {
            Expr::Literal(_) => Ok(()),
            Expr::Grouping(node) => self.resolve_expr(&node.value),
            Expr::Logical(node) => {
                match self.resolve_expr(&node.left) {
                    Ok(()) => {},
                    Err(error) => {
                        return Err(error);
                    },
                }
                self.resolve_expr(&node.right)
            },
            Expr::PropertySet(node) => {
                match self.resolve_expr(&node.value) {
                    Ok(()) => {},
                    Err(error) => {
                        return Err(error);
                    },
                }
                self.resolve_expr(&node.object)
            },
            Expr::Super(node) => self.visit_super(node),
            Expr::This(node) => self.visit_this(node),
            Expr::Unary(node) => self.resolve_expr(&node.value),
            Expr::Binary(node) => {
                match self.resolve_expr(&node.left) {
                    Ok(()) => {},
                    Err(error) => {
                        return Err(error);
                    },
                }
                self.resolve_expr(&node.right)
            },
            Expr::Call(node) => {
                match self.resolve_expr(&node.callee) {
                    Ok(()) => {},
                    Err(error) => {
                        return Err(error);
                    },
                }
                self.resolve_exprs(node.arguments.as_slice())
            },
            Expr::Get(node) => self.resolve_expr(&node.object),
            Expr::Assign(node) => {
                match self.resolve_expr(&node.value) {
                    Ok(()) => {},
                    Err(error) => {
                        return Err(error);
                    },
                }
                self.resolve_local(node.name.span.begin, node.name.lexeme);
                Ok(())
            },
            Expr::Variable(node) => self.visit_variable(node),
        }
    }

    fn begin_scope(&mut self)
        ensures
            final(self)@ == scoping::begin_scope(old(self)@),
    {
        self.scopes.push(NameTable::new());
        assert(scopes_view(self.scopes@) =~= scopes_view(old(self).scopes@).push(Map::empty()));
    }

    fn end_scope(&mut self)
        ensures
            final(self)@ == scoping::end_scope(old(self)@),
    {
        self.scopes.pop();
        assert(scopes_view(self.scopes@) =~= if old(self).scopes@.len() > 0 {
            scopes_view(old(self).scopes@).drop_last()
        } else {
            scopes_view(old(self).scopes@)
        });
    }

    fn declare(&mut self, name: &Token<'a>) -> (outcome: Result<(), ResolverError<'a>>)
        ensures
            follows(outcome, final(self)@, scoping::declare(old(self)@, *name)),
    {
        match self.scopes.pop() {
            None => {
                assert(scopes_view(self.scopes@) =~= scopes_view(old(self).scopes@));
                Ok(())
            },
            Some(mut scope) => {
                if scope.contains_key(name.lexeme) {
                    self.scopes.push(scope);
                    assert(scopes_view(self.scopes@) =~= scopes_view(old(self).scopes@));
                    return Err(ResolverError::SameNameVariableInLocalScope { token: *name });
                }
                scope.insert(name.lexeme, false);
                self.scopes.push(scope);
                assert(scopes_view(self.scopes@) =~= scopes_view(old(self).scopes@).drop_last().push(
                    scopes_view(old(self).scopes@).last().insert(name.lexeme@, false),
                ));
                Ok(())
            },
        }
    }

    fn define(&mut self, name: &'a str)
        ensures
            final(self)@ == scoping::define(old(self)@, name@),
    {
        match self.scopes.pop() {
            None => {
                assert(scopes_view(self.scopes@) =~= scopes_view(old(self).scopes@));
            },
            Some(mut scope) => {
                scope.insert(name, true);
                self.scopes.push(scope);
                assert(scopes_view(self.scopes@) =~= scopes_view(old(self).scopes@).drop_last().push(
                    scopes_view(old(self).scopes@).last().insert(name@, true),
                ));
            },
        }
    }

    /// Records under `key` how many scopes lie between the innermost scope
    /// and the innermost scope that holds `name`; records nothing where no
    /// scope holds it. A recorded depth is less than the number of open
    /// scopes, and the scope at that depth holds the name.
    fn resolve_local(&mut self, key: u32, name: &str)
        ensures
            final(self)@ == scoping::resolve_local(old(self)@, key, name@),
            scoping::depth_of(old(self)@.scopes, name@) is Some ==> {
                &&& final(self)@.locals.contains_key(key)
                &&& final(self)@.locals[key] < old(self)@.scopes.len()
                &&& old(self)@.scopes[old(self)@.scopes.len() - 1
                    - final(self)@.locals[key]].contains_key(name@)
            },
    {
        let ghost scopes = scopes_view(self.scopes@);
        proof {
            scoping::lemma_depth_is_in_scope(scopes, name@);
        }
        let count = self.scopes.len();
        let mut i: usize = count;
        while i > 0
            invariant
                i <= count,
                count == self.scopes@.len(),
                *self == *old(self),
                scopes == scopes_view(self.scopes@),
                forall|inner: int| i <= inner < count ==> !(#[trigger] scopes[inner]).contains_key(name@),
            decreases i,
        {
            i -= 1;
            if self.scopes[i].contains_key(name) {
                proof {
                    scoping::lemma_depth_of_found(scopes, i as int, name@);
                }
                self.locals.insert(key, count - 1 - i);
                return ;
            }
        }
    }

    #[verifier::loop_isolation(false)]
    fn resolve_function(&mut self, function: &StmtFunction<'a>, fn_type: FunctionType) -> (outcome:
        Result<(), ResolverError<'a>>)
        ensures
            follows(
                outcome,
                final(self)@,
                scoping::resolve_function(old(self)@, *function, fn_type),
            ),
        decreases *function, 0nat,
    {
        let enclosing_function = self.current_function;
        self.current_function = fn_type;
        self.begin_scope();
        let ghost inner = self@;
        let mut i: usize = 0;
        while i < function.params.len()
            invariant
                i <= function.params@.len(),
                scoping::declare_parameters(self@, function.params@, i as int)
                    == scoping::declare_parameters(inner, function.params@, 0),
            decreases function.params@.len() - i,
        {
            match self.declare(&function.params[i]) {
                Ok(()) => {},
                Err(error) => {
                    return Err(error);
                },
            }
            self.define(function.params[i].lexeme);
            i += 1;
        }
        match self.resolve_stmts(function.body.as_slice()) {
            Ok(()) => {},
            Err(error) => {
                return Err(error);
            },
        }
        self.end_scope();
        self.current_function = enclosing_function;
        Ok(())
    }

    fn visit_super(&mut self, node: &ExprSuper<'a>) -> (outcome: Result<(), ResolverError<'a>>)
        ensures
            follows(outcome, final(self)@, scoping::resolve_expr(old(self)@, Expr::Super(*node))),
            outcome is Err ==> final(self)@ == old(self)@,
    {
        if self.current_class == ClassType::NoClass {
            return Err(ResolverError::SuperOutsideClass { token: node.keyword });
        } else if self.current_class != ClassType::Subclass {
            return Err(ResolverError::SuperInClassWithoutSuperclass { token: node.keyword });
        }
        self.resolve_local(node.keyword.span.begin, node.keyword.lexeme);
        Ok(())
    }

    fn visit_this(&mut self, node: &ExprThis<'a>) -> (outcome: Result<(), ResolverError<'a>>)
        ensures
            follows(outcome, final(self)@, scoping::resolve_expr(old(self)@, Expr::This(*node))),
            outcome is Err ==> final(self)@ == old(self)@,
    {
        if self.current_class == ClassType::NoClass {
            return Err(ResolverError::ThisOutsideClass { token: node.keyword });
        }
        self.resolve_local(node.keyword.span.begin, node.keyword.lexeme);
        Ok(())
    }

    fn visit_variable(&mut self, node: &ExprVariable<'a>) -> (outcome: Result<
        (),
        ResolverError<'a>,
    >)
        ensures
            follows(
                outcome,
                final(self)@,
                scoping::resolve_expr(old(self)@, Expr::Variable(*node)),
            ),
    {
        let count = self.scopes.len();
        if count > 0 {
            if let Some(defined) = self.scopes[count - 1].get(node.name.lexeme) {
                if !*defined {
                    return Err(ResolverError::VariableInOwnInitializer { token: node.name });
                }
            }
        }
        self.resolve_local(node.name.span.begin, node.name.lexeme);
        Ok(())
    }

    #[verifier::loop_isolation(false)]
    fn visit_class(&mut self, node: &StmtClass<'a>) -> (outcome: Result<(), ResolverError<'a>>)
        ensures
            follows(outcome, final(self)@, scoping::resolve_stmt(old(self)@, Stmt::Class(*node))),
        decreases *node, 0nat,
    {
        let enclosing_class = self.current_class;
        self.current_class = ClassType::Class;
        match self.declare(&node.name) {
            Ok(()) => {},
            Err(error) => {
                return Err(error);
            },
        }
        self.define(node.name.lexeme);
        match &node.superclass {
            None => {},
            Some(Expr::Variable(parent)) => {
                if str_eq(parent.name.lexeme, node.name.lexeme) {
                    return Err(ResolverError::InheritanceCycle { token: parent.name });
                }
                match self.visit_variable(parent) {
                    Ok(()) => {},
                    Err(error) => {
                        return Err(error);
                    },
                }
                self.current_class = ClassType::Subclass;
                self.begin_scope();
                self.define("super");
            },
            Some(_) => {
                return Err(ResolverError::InternalResolverError);
            },
        }
        self.begin_scope();
        self.define("this");
        let ghost inner = self@;
        let mut i: usize = 0;
        while i < node.methods.len()
            invariant
                i <= node.methods@.len(),
                scoping::resolve_methods(self@, node.methods@, i as int)
                    == scoping::resolve_methods(inner, node.methods@, 0),
            decreases node.methods@.len() - i,
        {
            let method = &node.methods[i];
            let declaration = if str_eq(method.name.lexeme, "init") {
                FunctionType::Initializer
            } else {
                FunctionType::Method
            };
            match self.resolve_function(method, declaration) {
                Ok(()) => {},
                Err(error) => {
                    return Err(error);
                },
            }
            i += 1;
        }
        self.end_scope();
        if node.superclass.is_some() {
            self.end_scope();
        }
        self.current_class = enclosing_class;
        Ok(())
    }

    fn visit_return(&mut self, node: &StmtReturn<'a>) -> (outcome: Result<(), ResolverError<'a>>)
        ensures
            follows(outcome, final(self)@, scoping::resolve_stmt(old(self)@, Stmt::Return(*node))),
        decreases *node, 0nat,
    {
        if self.current_function == FunctionType::NoFunction {
            return Err(ResolverError::TopLevelReturn { token: node.keyword });
        }
        if let Some(expr) = &node.value {
            if self.current_function == FunctionType::Initializer {
                return Err(ResolverError::ReturnInConstructor { token: node.keyword });
            }
            return self.resolve_expr(expr);
        }
        Ok(())
    }

    fn visit_var(&mut self, node: &StmtVar<'a>) -> (outcome: Result<(), ResolverError<'a>>)
        ensures
            follows(outcome, final(self)@, scoping::resolve_stmt(old(self)@, Stmt::Var(*node))),
        decreases *node, 0nat,
    {
        match self.declare(&node.name) {
            Ok(()) => {},
            Err(error) => {
                return Err(error);
            },
        }
        if let Some(expr) = &node.initializer {
            match self.resolve_expr(expr) {
                Ok(()) => {},
                Err(error) => {
                    return Err(error);
                },
            }
        }
        self.define(node.name.lexeme);
        Ok(())
    }
}

} // verus!
