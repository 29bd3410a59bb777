//! From source text to a machine that fits: the program that scanning and
//! parsing give is one whose table of depths, as the resolver records it,
//! fits it, so that the machine that runs it finds every resolved variable
//! where the table says.

use std::collections::HashMap;
use vstd::prelude::*;
use crate::ast::{
    expr_view, exprs_view, function_view, functions_view, optional_expr_view, stmt_view,
    stmts_view, Expr, Stmt, StmtFunction,
};
use crate::interpreter::fitting::{fits, Notes};
use crate::interpreter::machine::Task;
use crate::interpreter::progress::lemma_program_start_is_steady;
use crate::interpreter::recording::{
    apart, lemma_resolved_table_fits, plain_expr, plain_exprs, plain_function, plain_functions,
    plain_name, plain_optional, plain_stmt, plain_stmts,
};
use crate::interpreter::resolved::{is_declaration, stmts_fit};
use crate::interpreter::Interpreter;
use crate::interpreter::resolver::{ClassType, FunctionType};
use crate::interpreter::scoping::{resolve_stmts, Resolving};
use crate::interpreter::semantics::schedule;
use crate::interpreter::soundness::lemma_program_start_fits;
use crate::interpreter::steadiness::steady;
use crate::interpreter::uses::{
    uses_expr, uses_exprs, uses_functions, uses_optional, uses_stmt, uses_stmts,
};
use crate::lex::grammar::scan_source;
use crate::lex::order::{lemma_tokens_are_well_scanned, well_scanned};
use crate::lex::{tokens_match, Token};
use crate::parser::grammar::{parsed, program};
use crate::parser::keys::{
    declares, disjoint, keys_of_expr, keys_of_exprs, keys_of_functions, keys_of_optional,
    keys_of_stmt, keys_of_stmts, neat_expr, neat_exprs, neat_function, neat_functions, neat_name,
    neat_optional, neat_stmt, neat_stmts,
};
use crate::parser::neatness::lemma_program_is_neat;

verus! {

/// The keys of the uses in an expression are those of its view, and the
/// expression is plain where its view is neat.
proof fn lemma_expr_is_plain(expr: Expr)
    ensures
        uses_expr(expr) == keys_of_expr(expr_view(expr)),
        neat_expr(expr_view(expr)) ==> plain_expr(expr),
    decreases expr, 0nat,
{
    match expr {
        Expr::Literal(_) => {},
        Expr::Grouping(e) => {
            lemma_expr_is_plain(*e.value);
        },
        Expr::Logical(e) => {
            lemma_expr_is_plain(*e.left);
            lemma_expr_is_plain(*e.right);
        },
        Expr::PropertySet(e) => {
            lemma_expr_is_plain(*e.object);
            lemma_expr_is_plain(*e.value);
        },
        Expr::Super(_) => {},
        Expr::This(_) => {},
        Expr::Unary(e) => {
            lemma_expr_is_plain(*e.value);
        },
        Expr::Binary(e) => {
            lemma_expr_is_plain(*e.left);
            lemma_expr_is_plain(*e.right);
        },
        Expr::Call(e) => {
            lemma_expr_is_plain(*e.callee);
            lemma_exprs_are_plain(e.arguments@);
        },
        Expr::Get(e) => {
            lemma_expr_is_plain(*e.object);
        },
        Expr::Assign(e) => {
            lemma_expr_is_plain(*e.value);
        },
        Expr::Variable(_) => {},
    }
    assert(uses_expr(expr) =~= keys_of_expr(expr_view(expr)));
}

proof fn lemma_exprs_are_plain(list: Seq<Expr>)
    ensures
        uses_exprs(list) == keys_of_exprs(exprs_view(list)),
        neat_exprs(exprs_view(list)) ==> plain_exprs(list),
    decreases list, 1nat,
{
    let views = exprs_view(list);
    assert forall|i: int| 0 <= i < list.len() implies uses_expr(#[trigger] list[i]) == keys_of_expr(
        views[i],
    ) && (neat_expr(views[i]) ==> plain_expr(list[i])) by {
        lemma_expr_is_plain(list[i]);
    }
    assert forall|key: u32| uses_exprs(list).contains(key) <==> keys_of_exprs(views).contains(
        key,
    ) by {
        if uses_exprs(list).contains(key) {
            let i = choose|i: int| 0 <= i < list.len() && uses_expr(#[trigger] list[i]).contains(key);
            assert(keys_of_expr(views[i]).contains(key));
        }
        if keys_of_exprs(views).contains(key) {
            let i = choose|i: int| 0 <= i < views.len() && keys_of_expr(#[trigger] views[i]).contains(key);
            assert(uses_expr(list[i]).contains(key));
        }
    }
    assert(uses_exprs(list) =~= keys_of_exprs(views));
    if neat_exprs(views) {
        assert forall|i: int| 0 <= i < list.len() implies plain_expr(#[trigger] list[i]) by {
            assert(neat_expr(views[i]));
        }
        assert forall|i: int, j: int| 0 <= i < j < list.len() implies apart(
            #[trigger] uses_expr(list[i]),
            #[trigger] uses_expr(list[j]),
        ) by {
            assert(disjoint(keys_of_expr(views[i]), keys_of_expr(views[j])));
        }
    }
}

proof fn lemma_optional_is_plain(expr: Option<Expr>)
    ensures
        uses_optional(expr) == keys_of_optional(optional_expr_view(expr)),
        neat_optional(optional_expr_view(expr)) ==> plain_optional(expr),
{
    if let Some(e) = expr {
        lemma_expr_is_plain(e);
    }
}

proof fn lemma_stmts_are_plain(list: Seq<Stmt>)
    ensures
        uses_stmts(list) == keys_of_stmts(stmts_view(list)),
        neat_stmts(stmts_view(list)) ==> plain_stmts(list),
    decreases list, 1nat,
{
    let views = stmts_view(list);
    assert forall|i: int| 0 <= i < list.len() implies uses_stmt(#[trigger] list[i]) == keys_of_stmt(
        views[i],
    ) && (neat_stmt(views[i]) ==> plain_stmt(list[i])) by {
        lemma_stmt_is_plain(list[i]);
    }
    assert forall|key: u32| uses_stmts(list).contains(key) <==> keys_of_stmts(views).contains(
        key,
    ) by {
        if uses_stmts(list).contains(key) {
            let i = choose|i: int| 0 <= i < list.len() && uses_stmt(#[trigger] list[i]).contains(key);
            assert(keys_of_stmt(views[i]).contains(key));
        }
        if keys_of_stmts(views).contains(key) {
            let i = choose|i: int| 0 <= i < views.len() && keys_of_stmt(#[trigger] views[i]).contains(key);
            assert(uses_stmt(list[i]).contains(key));
        }
    }
    assert(uses_stmts(list) =~= keys_of_stmts(views));
    if neat_stmts(views) {
        assert forall|i: int| 0 <= i < list.len() implies plain_stmt(#[trigger] list[i]) by {
            assert(neat_stmt(views[i]));
        }
        assert forall|i: int, j: int| 0 <= i < j < list.len() implies apart(
            #[trigger] uses_stmt(list[i]),
            #[trigger] uses_stmt(list[j]),
        ) by {
            assert(disjoint(keys_of_stmt(views[i]), keys_of_stmt(views[j])));
        }
    }
}

proof fn lemma_function_is_plain(function: StmtFunction)
    ensures
        uses_stmts(function.body@) == keys_of_stmts(function_view(function).body),
        neat_function(function_view(function)) ==> plain_function(function),
    decreases function, 0nat,
{
    lemma_stmts_are_plain(function.body@);
    if neat_function(function_view(function)) {
        assert forall|i: int| 0 <= i < function.params@.len() implies plain_name(
            #[trigger] function.params@[i],
        ) by {
            assert(neat_name(function_view(function).params[i]));
        }
    }
}

proof fn lemma_functions_are_plain(list: Seq<StmtFunction>)
    ensures
        uses_functions(list) == keys_of_functions(functions_view(list)),
        neat_functions(functions_view(list)) ==> plain_functions(list),
    decreases list, 1nat,
{
    let views = functions_view(list);
    assert forall|i: int| 0 <= i < list.len() implies uses_stmts((#[trigger] list[i]).body@)
        == keys_of_stmts(views[i].body) && (neat_function(views[i]) ==> plain_function(list[i])) by {
        lemma_function_is_plain(list[i]);
    }
    assert forall|key: u32| uses_functions(list).contains(key) <==> keys_of_functions(
        views,
    ).contains(key) by {
        if uses_functions(list).contains(key) {
            let i = choose|i: int|
                0 <= i < list.len() && uses_stmts((#[trigger] list[i]).body@).contains(key);
            assert(keys_of_stmts(views[i].body).contains(key));
        }
        if keys_of_functions(views).contains(key) {
            let i = choose|i: int|
                0 <= i < views.len() && keys_of_stmts((#[trigger] views[i]).body).contains(key);
            assert(uses_stmts(list[i].body@).contains(key));
        }
    }
    assert(uses_functions(list) =~= keys_of_functions(views));
    if neat_functions(views) {
        assert forall|i: int| 0 <= i < list.len() implies plain_function(#[trigger] list[i]) by {
            assert(neat_function(views[i]));
        }
        assert forall|i: int, j: int| 0 <= i < j < list.len() implies apart(
            #[trigger] uses_stmts(list[i].body@),
            #[trigger] uses_stmts(list[j].body@),
        ) by {
            assert(disjoint(keys_of_stmts(views[i].body), keys_of_stmts(views[j].body)));
        }
    }
}

proof fn lemma_stmt_is_plain(stmt: Stmt)
    ensures
        uses_stmt(stmt) == keys_of_stmt(stmt_view(stmt)),
        is_declaration(stmt) == declares(stmt_view(stmt)),
        neat_stmt(stmt_view(stmt)) ==> plain_stmt(stmt),
    decreases stmt, 0nat,
{
    match stmt {
        Stmt::Block(s) => {
            lemma_stmts_are_plain(s.statements@);
        },
        Stmt::Class(s) => {
            lemma_optional_is_plain(s.superclass);
            lemma_functions_are_plain(s.methods@);
        },
        Stmt::Expression(s) => {
            lemma_expr_is_plain(s.expr);
        },
        Stmt::Function(s) => {
            lemma_function_is_plain(s);
        },
        Stmt::If(s) => {
            lemma_expr_is_plain(s.condition);
            lemma_stmt_is_plain(*s.then_branch);
            if let Some(branch) = s.else_branch {
                lemma_stmt_is_plain(*branch);
            }
        },
        Stmt::Print(s) => {
            lemma_expr_is_plain(s.expr);
        },
        Stmt::Return(s) => {
            lemma_optional_is_plain(s.value);
        },
        Stmt::Var(s) => {
            lemma_optional_is_plain(s.initializer);
        },
        Stmt::While(s) => {
            lemma_expr_is_plain(s.condition);
            lemma_stmt_is_plain(*s.body);
        },
    }
    assert(uses_stmt(stmt) =~= keys_of_stmt(stmt_view(stmt)));
}

/// Statements whose views are neat are plain.
pub proof fn lemma_neat_statements_are_plain(stmts: Seq<Stmt>)
    requires
        neat_stmts(stmts_view(stmts)),
    ensures
        plain_stmts(stmts),
{
    lemma_stmts_are_plain(stmts);
}

/// The program that parsing gives from well-scanned tokens is plain: every
/// use of a variable in it has a key of its own, no declared name is `super`
/// or `this`, and no branch and no body of a loop is itself a declaration.
pub proof fn lemma_parsed_program_is_plain(tokens: Seq<Token>, stmts: Seq<Stmt>)
    requires
        well_scanned(tokens),
        stmts_view(stmts) == program(tokens, 0).0,
    ensures
        plain_stmts(stmts),
{
    lemma_program_is_neat(tokens, 0);
    lemma_stmts_are_plain(stmts);
}

/// The resolver at the start: outside every scope, function and class, with
/// nothing recorded.
pub open spec fn resolver_start() -> Resolving {
    Resolving {
        scopes: Seq::empty(),
        locals: Map::empty(),
        current_function: FunctionType::NoFunction,
        current_class: ClassType::NoClass,
    }
}

/// For every program that is scanned from a source of fewer than 2^32 bytes,
/// parsed without an error and resolved without an error, the machine on
/// whose agenda the program is put fits the table of depths that the
/// resolver has recorded. Every step keeps the machine fitting
/// (`lemma_step_keeps_fitting`), and in a machine that fits, the chain of
/// frames at a use of a variable is longer than the depth recorded for it,
/// and the frame at that depth binds the name
/// (`lemma_variable_use_finds_its_binding`).
pub proof fn lemma_pipeline_fits<'a>(
    source: Seq<u8>,
    tokens: Seq<Token<'a>>,
    stmts: &'a Vec<Stmt<'a>>,
) -> (notes: Notes)
    requires
        source.len() <= u32::MAX,
        scan_source(source, 0, 1, 0) is Ok,
        tokens_match(tokens, source, scan_source(source, 0, 1, 0)->Ok_0),
        parsed(tokens, 0) == Ok::<Seq<crate::ast::StmtView<'a>>, crate::parser::error::ParserError<'a>>(
            stmts_view(stmts@),
        ),
        resolve_stmts(resolver_start(), stmts@, 0) is Ok,
    ensures
        fits(
            schedule(
                crate::interpreter::initial(
                    resolve_stmts(resolver_start(), stmts@, 0)->Ok_0.locals,
                ),
                Task::Sequence(stmts, 0),
            ),
            notes,
        ),
{
    lemma_tokens_are_well_scanned(tokens, source);
    lemma_parsed_program_is_plain(tokens, stmts@);
    lemma_resolved_table_fits(stmts@);
    lemma_program_start_fits(resolve_stmts(resolver_start(), stmts@, 0)->Ok_0.locals, stmts)
}

/// A machine that is ready to run a program, and what resolving says of it:
/// with a table of depths that fits the program, the machine fits the table
/// and is steady, and each of its steps can be taken with
/// `Interpreter::step_fitting`.
pub fn machine_for<'a>(stmts: &'a Vec<Stmt<'a>>, locals: HashMap<u32, usize>) -> (out: (
    Interpreter<'a>,
    Ghost<Notes>,
))
    requires
        stmts_fit(locals@, Seq::empty(), stmts@, 0),
    ensures
        out.0@ == schedule(crate::interpreter::initial(locals@), Task::Sequence(stmts, 0)),
        fits(out.0@, out.1@),
        steady(out.0@),
{
    let ghost table = locals@;
    let ghost mut notes = Notes { tasks: Seq::empty(), functions: Seq::empty(), classes: Seq::empty() };
    let mut interpreter = Interpreter::new(locals);
    interpreter.interpret(stmts);
    proof {
        notes = lemma_program_start_fits(table, stmts);
        lemma_program_start_is_steady(table, stmts);
    }
    (interpreter, Ghost(notes))
}

} // verus!
