//! The invariant of the evaluation machine that ties it to resolving: the
//! frames in which each piece of work runs mirror the scopes in which its
//! tree was resolved.

use vstd::prelude::*;
use super::binding::{declared, grows, lemma_models_after_growth, models};
use super::environment::EnvironmentView;
use super::machine::{MachineView, Task};
use super::resolved::{
    class_scopes, expr_fits, exprs_fit, function_fits, is_declaration, methods_fit, scopes_after,
    scopes_after_all, single_scope, stmt_fits, stmts_fit, use_fits,
};
use super::scoping::{key_of, Scope};
use super::semantics::{fail, schedule};
use super::store::StoreView;

verus! {

/// What resolving says of the machine's work and store: for each piece of
/// work on the agenda, for each function and for each class of the store,
/// the scopes it belongs to.
pub struct Notes {
    /// For each piece of work, the scopes in which its tree was resolved.
    pub tasks: Seq<Seq<Scope>>,
    /// For each function, the scopes around its declaration.
    pub functions: Seq<Seq<Scope>>,
    /// For each class, the scopes that its methods close over.
    pub classes: Seq<Seq<Scope>>,
}

/// Whether the table of depths fits the trees that a piece of work still
/// uses, which was resolved in the scopes `scopes`.
pub open spec fn task_fits(locals: Map<u32, usize>, scopes: Seq<Scope>, task: Task) -> bool {
    match task {
        Task::Sequence(list, from) => stmts_fit(locals, scopes, list@, from as int),
        Task::Execute(stmt) => stmt_fits(locals, scopes, *stmt),
        Task::Evaluate(expr) => expr_fits(locals, scopes, *expr),
        Task::Arguments(list, from) => forall|i: int|
            from <= i < list@.len() ==> expr_fits(locals, scopes, #[trigger] list@[i]),
        Task::Branch(node) => {
            &&& !is_declaration(*node.then_branch)
            &&& stmt_fits(locals, scopes, *node.then_branch)
            &&& match node.else_branch {
                Some(branch) => !is_declaration(*branch) && stmt_fits(locals, scopes, *branch),
                None => true,
            }
        },
        Task::Loop(node) => {
            &&& expr_fits(locals, scopes, node.condition)
            &&& !is_declaration(*node.body)
            &&& stmt_fits(locals, scopes, *node.body)
        },
        Task::DeclareClass(node) => methods_fit(
            locals,
            class_scopes(scopes, node.name.lexeme@, true).push(single_scope("this"@)),
            node.methods@,
        ),
        Task::LogicalRight(node) => expr_fits(locals, scopes, *node.right),
        Task::SetCheck(node) => expr_fits(locals, scopes, *node.value),
        Task::CallCheck(node) => exprs_fit(locals, scopes, node.arguments@),
        Task::Assign(node) => use_fits(locals, scopes, key_of(node.name), node.name.lexeme@),
        _ => true,
    }
}

/// The scopes that a piece of work leaves when all of it is done.
pub open spec fn scopes_left(task: Task, scopes: Seq<Scope>) -> Seq<Scope> {
    match task {
        Task::Sequence(list, from) => scopes_after_all(scopes, list@, from as int),
        Task::Execute(stmt) => scopes_after(scopes, *stmt),
        Task::DefineVar(node) => declared(scopes, node.name.lexeme@, true),
        Task::DeclareClass(node) => declared(scopes, node.name.lexeme@, true),
        _ => scopes,
    }
}

/// Whether the first `count` pieces of work of the agenda fit: the table
/// fits each of them in its scopes; the work below the end of a block or of a
/// call runs in scopes that the frame given back mirrors; and any other work
/// leaves the scopes in which the work below it runs.
pub open spec fn agenda_fits(
    frames: Seq<EnvironmentView>,
    locals: Map<u32, usize>,
    tasks: Seq<Task>,
    notes: Seq<Seq<Scope>>,
    count: int,
) -> bool
    decreases count,
{
    if count <= 0 {
        true
    } else {
        &&& task_fits(locals, notes[count - 1], tasks[count - 1])
        &&& count >= 2 ==> match tasks[count - 1] {
            Task::LeaveBlock(frame) => models(frames, frame, notes[count - 2]),
            Task::FinishCall { caller, .. } => models(frames, caller, notes[count - 2]),
            other => notes[count - 2] == scopes_left(other, notes[count - 1]),
        }
        &&& agenda_fits(frames, locals, tasks, notes, count - 1)
    }
}

/// Whether the store fits: the closure of every function mirrors the scopes
/// around its declaration, in which the table fits its body; and so for the
/// methods of every class, whose bodies stand in one more scope, for `this`.
pub open spec fn store_fits(store: StoreView, locals: Map<u32, usize>, notes: Notes) -> bool {
    &&& store.environments.len() <= usize::MAX
    &&& store.functions.len() <= usize::MAX
    &&& store.classes.len() <= usize::MAX
    &&& notes.functions.len() == store.functions.len()
    &&& notes.classes.len() == store.classes.len()
    &&& forall|f: int|
        0 <= f < store.functions.len() ==> {
            &&& models(store.environments, (#[trigger] store.functions[f]).closure, notes.functions[f])
            &&& function_fits(locals, notes.functions[f], *store.functions[f].declaration)
        }
    &&& forall|c: int, name: Seq<char>|
        0 <= c < store.classes.len() && (#[trigger] store.classes[c].methods.contains_key(name))
            ==> {
            &&& models(store.environments, store.classes[c].methods[name].closure, notes.classes[c])
            &&& function_fits(
                locals,
                notes.classes[c].push(single_scope("this"@)),
                *store.classes[c].methods[name].declaration,
            )
        }
}

/// The invariant: the store fits, the agenda fits, and the current frame
/// mirrors the scopes of the work to do next.
pub open spec fn fits(m: MachineView, notes: Notes) -> bool {
    &&& store_fits(m.store, m.locals, notes)
    &&& notes.tasks.len() == m.tasks.len()
    &&& agenda_fits(m.store.environments, m.locals, m.tasks, notes.tasks, m.tasks.len() as int)
    &&& m.tasks.len() > 0 ==> models(m.store.environments, m.environment, notes.tasks.last())
}

/// Whether a machine from whose agenda the work to do next was taken fits:
/// the current frame mirrors `scopes`, those of the work taken, and the work
/// below it runs in the scopes `left`.
pub open spec fn rest_fits(m: MachineView, notes: Notes, scopes: Seq<Scope>, left: Seq<Scope>) -> bool {
    &&& store_fits(m.store, m.locals, notes)
    &&& notes.tasks.len() == m.tasks.len()
    &&& agenda_fits(m.store.environments, m.locals, m.tasks, notes.tasks, m.tasks.len() as int)
    &&& models(m.store.environments, m.environment, scopes)
    &&& m.tasks.len() > 0 ==> notes.tasks.last() == left
}

/// The notes with one more piece of work.
pub open spec fn noted(notes: Notes, scopes: Seq<Scope>) -> Notes {
    Notes { tasks: notes.tasks.push(scopes), ..notes }
}

/// An agenda that fits does so for every shorter count.
pub proof fn lemma_agenda_prefix(
    frames: Seq<EnvironmentView>,
    locals: Map<u32, usize>,
    tasks: Seq<Task>,
    notes: Seq<Seq<Scope>>,
    count: int,
    shorter: int,
)
    requires
        agenda_fits(frames, locals, tasks, notes, count),
        shorter <= count,
    ensures
        agenda_fits(frames, locals, tasks, notes, shorter),
    decreases count - shorter,
{
    if shorter < count && count > 0 {
        lemma_agenda_prefix(frames, locals, tasks, notes, count - 1, shorter);
    }
}

/// Whether an agenda fits depends on its first `count` pieces of work only.
pub proof fn lemma_agenda_same(
    frames: Seq<EnvironmentView>,
    locals: Map<u32, usize>,
    tasks: Seq<Task>,
    notes: Seq<Seq<Scope>>,
    other_tasks: Seq<Task>,
    other_notes: Seq<Seq<Scope>>,
    count: int,
)
    requires
        agenda_fits(frames, locals, tasks, notes, count),
        forall|i: int| 0 <= i < count ==> tasks[i] == other_tasks[i],
        forall|i: int| 0 <= i < count ==> notes[i] == other_notes[i],
    ensures
        agenda_fits(frames, locals, other_tasks, other_notes, count),
    decreases count,
{
    if count > 0 {
        lemma_agenda_same(frames, locals, tasks, notes, other_tasks, other_notes, count - 1);
    }
}

/// An agenda that fits still does after the frames have grown.
pub proof fn lemma_agenda_after_growth(
    before: Seq<EnvironmentView>,
    after: Seq<EnvironmentView>,
    locals: Map<u32, usize>,
    tasks: Seq<Task>,
    notes: Seq<Seq<Scope>>,
    count: int,
)
    requires
        agenda_fits(before, locals, tasks, notes, count),
        grows(before, after),
    ensures
        agenda_fits(after, locals, tasks, notes, count),
    decreases count,
{
    if count > 0 {
        lemma_agenda_after_growth(before, after, locals, tasks, notes, count - 1);
        if count >= 2 {
            match tasks[count - 1] {
                Task::LeaveBlock(frame) => {
                    lemma_models_after_growth(before, after, frame, notes[count - 2]);
                },
                Task::FinishCall { caller, .. } => {
                    lemma_models_after_growth(before, after, caller, notes[count - 2]);
                },
                _ => {},
            }
        }
    }
}

/// A store that fits still does after its frames have grown.
pub proof fn lemma_store_after_growth(
    store: StoreView,
    after: Seq<EnvironmentView>,
    locals: Map<u32, usize>,
    notes: Notes,
)
    requires
        store_fits(store, locals, notes),
        grows(store.environments, after),
        after.len() <= usize::MAX,
    ensures
        store_fits(StoreView { environments: after, ..store }, locals, notes),
{
    let grown = StoreView { environments: after, ..store };
    assert forall|f: int| 0 <= f < grown.functions.len() implies {
        &&& models(grown.environments, (#[trigger] grown.functions[f]).closure, notes.functions[f])
        &&& function_fits(locals, notes.functions[f], *grown.functions[f].declaration)
    } by {
        lemma_models_after_growth(
            store.environments,
            after,
            store.functions[f].closure,
            notes.functions[f],
        );
    }
    assert forall|c: int, name: Seq<char>|
        0 <= c < grown.classes.len() && (#[trigger] grown.classes[c].methods.contains_key(
            name,
        )) implies {
        &&& models(grown.environments, grown.classes[c].methods[name].closure, notes.classes[c])
        &&& function_fits(
            locals,
            notes.classes[c].push(single_scope("this"@)),
            *grown.classes[c].methods[name].declaration,
        )
    } by {
        lemma_models_after_growth(
            store.environments,
            after,
            store.classes[c].methods[name].closure,
            notes.classes[c],
        );
    }
}

/// A machine that fits but for the work taken still does after its frames
/// have grown.
pub proof fn lemma_rest_after_growth(
    m: MachineView,
    notes: Notes,
    scopes: Seq<Scope>,
    left: Seq<Scope>,
    after: Seq<EnvironmentView>,
)
    requires
        rest_fits(m, notes, scopes, left),
        grows(m.store.environments, after),
        after.len() <= usize::MAX,
    ensures
        rest_fits(
            MachineView { store: StoreView { environments: after, ..m.store }, ..m },
            notes,
            scopes,
            left,
        ),
{
    lemma_store_after_growth(m.store, after, m.locals, notes);
    lemma_agenda_after_growth(
        m.store.environments,
        after,
        m.locals,
        m.tasks,
        notes.tasks,
        m.tasks.len() as int,
    );
    lemma_models_after_growth(m.store.environments, after, m.environment, scopes);
}

/// The work taken is done and has left the scopes that the work below it
/// runs in: the machine fits.
pub proof fn lemma_done(m: MachineView, notes: Notes, scopes: Seq<Scope>)
    requires
        rest_fits(m, notes, scopes, scopes),
    ensures
        fits(m, notes),
{
}

/// One piece of work is put on the agenda in place of the work taken.
pub proof fn lemma_scheduled(
    m: MachineView,
    notes: Notes,
    scopes: Seq<Scope>,
    left: Seq<Scope>,
    task: Task,
    task_scopes: Seq<Scope>,
)
    requires
        rest_fits(m, notes, scopes, left),
        task_fits(m.locals, task_scopes, task),
        !(task is LeaveBlock) && !(task is FinishCall),
        scopes_left(task, task_scopes) == left,
        models(m.store.environments, m.environment, task_scopes),
    ensures
        fits(schedule(m, task), noted(notes, task_scopes)),
        rest_fits(schedule(m, task), noted(notes, task_scopes), task_scopes, task_scopes),
{
    let next = schedule(m, task);
    let next_notes = noted(notes, task_scopes);
    lemma_agenda_same(
        m.store.environments,
        m.locals,
        m.tasks,
        notes.tasks,
        next.tasks,
        next_notes.tasks,
        m.tasks.len() as int,
    );
}

/// Two pieces of work are put on the agenda in place of the work taken;
/// `first` is done before `then`.
pub proof fn lemma_scheduled_two(
    m: MachineView,
    notes: Notes,
    scopes: Seq<Scope>,
    left: Seq<Scope>,
    then: Task,
    then_scopes: Seq<Scope>,
    first: Task,
    first_scopes: Seq<Scope>,
)
    requires
        rest_fits(m, notes, scopes, left),
        task_fits(m.locals, then_scopes, then),
        task_fits(m.locals, first_scopes, first),
        !(then is LeaveBlock) && !(then is FinishCall),
        !(first is LeaveBlock) && !(first is FinishCall),
        scopes_left(then, then_scopes) == left,
        scopes_left(first, first_scopes) == then_scopes,
        models(m.store.environments, m.environment, first_scopes),
    ensures
        fits(schedule(schedule(m, then), first), noted(noted(notes, then_scopes), first_scopes)),
{
    let middle = schedule(m, then);
    let middle_notes = noted(notes, then_scopes);
    lemma_agenda_same(
        m.store.environments,
        m.locals,
        m.tasks,
        notes.tasks,
        middle.tasks,
        middle_notes.tasks,
        m.tasks.len() as int,
    );
    let next = schedule(middle, first);
    let next_notes = noted(middle_notes, first_scopes);
    lemma_agenda_same(
        m.store.environments,
        m.locals,
        middle.tasks,
        middle_notes.tasks,
        next.tasks,
        next_notes.tasks,
        middle.tasks.len() as int,
    );
}

/// A machine that has failed fits: nothing is left to do.
pub proof fn lemma_failed<'a>(m: MachineView<'a>, notes: Notes, error: super::error::RuntimeError<'a>)
    requires
        store_fits(m.store, m.locals, notes),
    ensures
        fits(fail(m, error).0, Notes { tasks: Seq::empty(), ..notes }),
{
}

} // verus!
