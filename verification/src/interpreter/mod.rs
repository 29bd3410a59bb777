//! Resolving and running a program. The interpreter is a machine that runs
//! step by step: a step does one piece of work and says what it needs of the
//! host, which prints, reads the clock and works on numbers.

pub mod binding;
pub mod callable;
pub mod class;
pub mod environment;
pub mod error;
pub mod fitting;
pub mod laws;
pub mod machine;
pub mod native_fun;
pub mod progress;
pub mod recording;
pub mod resolved;
pub mod resolver;
pub mod scoping;
pub mod semantics;
pub mod soundness;
pub mod steadiness;
pub mod store;
pub mod uses;
pub mod value;

use std::collections::HashMap;
use vstd::prelude::*;
use crate::ast::{
    Expr, ExprBinary, ExprCall, ExprSuper, ExprUnary, LiteralValue, Stmt, StmtClass, StmtReturn,
};
use crate::lex::{Token, TokenType};
use crate::text::str_eq;
use callable::{Callable, LoxFunction};
use class::LoxClass;
use error::{CallableError, ClassError, ResolverError, RuntimeError};
use machine::{Action, Arithmetic, Awaiting, Comparison, Event, MachineView, Task};
use native_fun::clock::Clock;
use store::{Store, StoreView};
use value::Value;

verus! {

broadcast use vstd::std_specs::hash::group_hash_axioms;

/// The machine that runs a program.
pub struct Interpreter<'a> {
    store: Store<'a>,
    tasks: Vec<Task<'a>>,
    values: Vec<Value>,
    environment: usize,
    globals: usize,
    locals: HashMap<u32, usize>,
    awaiting: Awaiting,
}

impl<'a> View for Interpreter<'a> {
    type V = MachineView<'a>;

    closed spec fn view(&self) -> MachineView<'a> {
        MachineView {
            store: self.store@,
            tasks: self.tasks@,
            values: self.values@,
            environment: self.environment,
            globals: self.globals,
            locals: self.locals@,
            awaiting: self.awaiting,
        }
    }
}

/// The machine before a program is loaded: one frame, the globals, binds
/// `clock`, and it is the current frame.
pub open spec fn initial<'a>(locals: Map<u32, usize>) -> MachineView<'a> {
    MachineView {
        store: store::with_binding(
            store::with_frame(
                StoreView {
                    strings: Seq::empty(),
                    environments: Seq::empty(),
                    functions: Seq::empty(),
                    classes: Seq::empty(),
                    instances: Seq::empty(),
                },
                None,
            ),
            0,
            "clock"@,
            Some(Value::Callable(Callable::Native(Clock { arity: 0 }))),
        ),
        tasks: Seq::empty(),
        values: Seq::empty(),
        environment: 0,
        globals: 0,
        locals,
        awaiting: Awaiting::Nothing,
    }
}

impl<'a> Interpreter<'a> {
    /// A machine with the depths that the resolver recorded and `clock`
    /// among the globals.
    pub fn new(locals: HashMap<u32, usize>) -> (interpreter: Self)
        ensures
            interpreter@ == initial::<'a>(locals@),
    {
        let mut store = Store::new();
        let globals = store.add_frame(None);
        store.define(globals, "clock", Some(Value::Callable(Callable::Native(Clock::new()))));
        Interpreter {
            store,
            tasks: Vec::new(),
            values: Vec::new(),
            environment: globals,
            globals,
            locals,
            awaiting: Awaiting::Nothing,
        }
    }

    /// Puts the statements on the agenda; the steps that follow run them in
    /// order.
    pub fn interpret(&mut self, stmts: &'a Vec<Stmt<'a>>)
        ensures
            final(self)@ == semantics::schedule(old(self)@, Task::Sequence(stmts, 0)),
    {
        self.tasks.push(Task::Sequence(stmts, 0));
    }

    /// One step of the machine: takes the host's answer or does the next
    /// piece of work, and says what is asked of the host.
    pub fn step(&mut self, event: Event) -> (action: Action<'a>)
        ensures
            (final(self)@, action) == semantics::step(old(self)@, event),
    {
        match self.awaiting {
            Awaiting::Number => match event {
                Event::Number(n) => {
                    self.awaiting = Awaiting::Nothing;
                    self.give(Value::Number(n))
                },
                _ => self.fail(internal_error()),
            },
            Awaiting::Boolean => match event {
                Event::Boolean(b) => {
                    self.awaiting = Awaiting::Nothing;
                    self.give(Value::Boolean(b))
                },
                _ => self.fail(internal_error()),
            },
            Awaiting::Nothing => match self.tasks.pop() {
                None => Action::Finished,
                Some(task) => self.perform(task),
            },
        }
    }

    /// One step of a machine that fits the table of depths: the machine after
    /// the step fits it too, so that every variable for which the resolver
    /// has recorded a depth is found at that depth. `notes` is what resolving
    /// says of the machine; the result holds what it says after the step.
    /// Where the machine is steady as well and the host answers what was
    /// asked, the step does not fail on the machine's own account, and the
    /// machine stays steady.
    pub fn step_fitting(&mut self, event: Event, notes: Ghost<fitting::Notes>) -> (out: (
        Action<'a>,
        Ghost<fitting::Notes>,
    ))
        requires
            fitting::fits(old(self)@, notes@),
        ensures
            (final(self)@, out.0) == semantics::step(old(self)@, event),
            fitting::fits(final(self)@, out.1@),
            steadiness::steady(old(self)@) && progress::answers(old(self)@.awaiting, event)
                ==> progress::carries_on((final(self)@, out.0)),
    {
        let ghost before = self@;
        let ghost mut next = notes@;
        proof {
            self.lemma_store_is_bounded();
        }
        let action = self.step(event);
        proof {
            self.lemma_store_is_bounded();
            next = soundness::lemma_step_keeps_fitting(before, notes@, event);
            if steadiness::steady(before) && progress::answers(before.awaiting, event) {
                progress::lemma_step_carries_on(before, notes@, event);
            }
        }
        (action, Ghost(next))
    }

    /// Takes steps up to the first action that is not `Continue`, and no
    /// more than `budget` steps after the first.
    pub fn run(&mut self, event: Event, budget: usize) -> (action: Action<'a>)
        ensures
            (final(self)@, action) == semantics::run(old(self)@, event, budget as nat),
    {
        let mut action = self.step(event);
        let mut left = budget;
        while left > 0 && matches!(action, Action::Continue)
            invariant
                semantics::run(old(self)@, event, budget as nat) == if action is Continue && left
                    > 0 {
                    semantics::run(self@, Event::Proceed, (left - 1) as nat)
                } else {
                    (self@, action)
                },
            decreases left,
        {
            action = self.step(Event::Proceed);
            left -= 1;
        }
        action
    }

    /// How a value that is no number prints; `None` for a number, which the
    /// host prints.
    pub fn text_of(&self, value: Value) -> (text: Option<String>)
        ensures
            match text {
                Some(text) => store::text_of(self@.store, value) == Some(text@),
                None => store::text_of(self@.store, value) is None,
            },
    {
        self.store.text_of(value)
    }

    /// The store and the value stack of a machine are bounded, as the laws
    /// of every step ask.
    pub proof fn lemma_store_is_bounded(&self)
        ensures
            soundness::bounded(self@.store),
            self@.values.len() <= usize::MAX,
    {
        self.store.lemma_sizes();
        vstd::std_specs::vec::axiom_spec_len(&self.values);
    }

    fn fail(&mut self, error: RuntimeError<'a>) -> (action: Action<'a>)
        ensures
            (final(self)@, action) == semantics::fail(old(self)@, error),
    {
        self.tasks.clear();
        self.values.clear();
        self.awaiting = Awaiting::Nothing;
        self.environment = self.globals;
        Action::Failed(error)
    }

    fn give(&mut self, value: Value) -> (action: Action<'a>)
        ensures
            (final(self)@, action) == semantics::give(old(self)@, value),
    {
        self.values.push(value);
        Action::Continue
    }

    fn ask(&mut self, awaiting: Awaiting, question: Action<'a>) -> (action: Action<'a>)
        ensures
            (final(self)@, action) == semantics::ask(old(self)@, awaiting, question),
    {
        self.awaiting = awaiting;
        question
    }

    /// Puts `first` on top of `then` on the agenda.
    fn schedule(&mut self, then: Task<'a>, first: Task<'a>) -> (action: Action<'a>)
        ensures
            (final(self)@, action) == semantics::proceed(
                semantics::schedule(semantics::schedule(old(self)@, then), first),
            ),
    {
        self.tasks.push(then);
        self.tasks.push(first);
        Action::Continue
    }

    fn define(&mut self, name: &'a str, value: Option<Value>) -> (action: Action<'a>)
        ensures
            (final(self)@, action) == semantics::define(old(self)@, name@, value),
    {
        if self.store.define(self.environment, name, value) {
            Action::Continue
        } else {
            self.fail(RuntimeError::EnvironmentCreationError)
        }
    }

    /// The depth that the resolver recorded under `key`.
    fn depth(&self, key: u32) -> (depth: Option<usize>)
        ensures
            depth == if self@.locals.contains_key(key) {
                Some(self@.locals[key])
            } else {
                None
            },
    {
        match self.locals.get(&key) {
            Some(depth) => Some(*depth),
            None => None,
        }
    }

    fn lookup_variable(&mut self, name: Token<'a>) -> (action: Action<'a>)
        ensures
            (final(self)@, action) == semantics::lookup_variable(old(self)@, name),
    {
        match self.depth(name.span.begin) {
            Some(distance) => match self.store.get_at(self.environment, distance, name.lexeme) {
                Some(value) => self.give(value),
                None => self.fail(internal_error()),
            },
            None => match self.store.get(self.globals, name) {
                Ok(value) => self.give(value),
                Err(error) => self.fail(error),
            },
        }
    }

    fn visit_super(&mut self, node: &'a ExprSuper<'a>) -> (action: Action<'a>)
        ensures
            (final(self)@, action) == semantics::super_method(old(self)@, *node),
    {
        let distance = match self.depth(node.keyword.span.begin) {
            Some(distance) => distance,
            None => {
                return self.fail(internal_error());
            },
        };
        if distance == 0 {
            return self.fail(internal_error());
        }
        let superclass = self.store.get_at(self.environment, distance, "super");
        let object = self.store.get_at(self.environment, distance - 1, "this");
        match (superclass, object) {
            (Some(Value::Callable(Callable::Class(class))), Some(Value::Instance(instance))) => {
                match self.store.find_method(class, node.method.lexeme) {
                    Some(method) => {
                        let function = self.store.bind_method(method, instance);
                        self.give(Value::Callable(Callable::Function(function)))
                    },
                    None => self.fail(
                        RuntimeError::ClassError(
                            ClassError::UndefinedProperty { token: node.method },
                        ),
                    ),
                }
            },
            (Some(_), Some(_)) => self.fail(
                RuntimeError::ClassError(ClassError::SuperclassNotAClass { token: node.keyword }),
            ),
            _ => self.fail(internal_error()),
        }
    }

    fn evaluate(&mut self, expr: &'a Expr<'a>) -> (action: Action<'a>)
        ensures
            (final(self)@, action) == semantics::evaluate(old(self)@, expr),
    {
        match expr {
            Expr::Literal(node) => match &node.value {
                LiteralValue::Number(text) => self.ask(Awaiting::Number, Action::ParseNumber(text)),
                LiteralValue::String(text) => {
                    let at = self.store.add_string(text.clone());
                    self.give(Value::String(at))
                },
                LiteralValue::Bool(b) => self.give(Value::Boolean(*b)),
                LiteralValue::Nil => self.give(Value::Nil),
            },
            Expr::Grouping(node) => {
                self.tasks.push(Task::Evaluate(&*node.value));
                Action::Continue
            },
            Expr::Logical(node) => self.schedule(
                Task::LogicalRight(node),
                Task::Evaluate(&*node.left),
            ),
            Expr::PropertySet(node) => self.schedule(
                Task::SetCheck(node),
                Task::Evaluate(&*node.object),
            ),
            Expr::Super(node) => self.visit_super(node),
            Expr::This(node) => self.lookup_variable(node.keyword),
            Expr::Unary(node) => self.schedule(Task::Unary(node), Task::Evaluate(&*node.value)),
            Expr::Binary(node) => {
                self.tasks.push(Task::Binary(node));
                self.schedule(Task::Evaluate(&*node.right), Task::Evaluate(&*node.left))
            },
            Expr::Call(node) => self.schedule(Task::CallCheck(node), Task::Evaluate(&*node.callee)),
            Expr::Get(node) => self.schedule(
                Task::GetProperty(node),
                Task::Evaluate(&*node.object),
            ),
            Expr::Assign(node) => self.schedule(Task::Assign(node), Task::Evaluate(&*node.value)),
            Expr::Variable(node) => self.lookup_variable(node.name),
        }
    }

    fn visit_class(&mut self, node: &'a StmtClass<'a>, superclass: Option<usize>) -> (action:
        Action<'a>)
        ensures
            (final(self)@, action) == semantics::declare_class(old(self)@, node, superclass),
    {
        if !self.store.define(self.environment, node.name.lexeme, None) {
            return self.fail(RuntimeError::EnvironmentCreationError);
        }
        let closure = match superclass {
            Some(parent) => {
                let frame = self.store.add_frame(Some(self.environment));
                self.store.define(frame, "super", Some(Value::Callable(Callable::Class(parent))));
                frame
            },
            None => self.environment,
        };
        let mut class = LoxClass::new(node.name.lexeme, superclass);
        let mut i: usize = 0;
        while i < node.methods.len()
            invariant
                i <= node.methods@.len(),
                class@.name == node.name.lexeme@,
                class@.superclass == superclass,
                semantics::methods_table(&node.methods, closure, i as int, class@.methods)
                    == semantics::methods_table(&node.methods, closure, 0, Map::empty()),
            decreases node.methods@.len() - i,
        {
            let method = &node.methods[i];
            class.add_method(
                method.name.lexeme,
                LoxFunction::new(method, closure, str_eq(method.name.lexeme, "init")),
            );
            i += 1;
        }
        let at = self.store.add_class(class);
        match self.store.assign(
            self.environment,
            node.name,
            Value::Callable(Callable::Class(at)),
        ) {
            Ok(()) => Action::Continue,
            Err(error) => self.fail(error),
        }
    }

    fn finish_call(
        &mut self,
        caller: usize,
        receiver: Option<usize>,
        base: usize,
        value: Value,
    ) -> (action: Action<'a>)
        ensures
            (final(self)@, action) == semantics::finish_call(
                old(self)@,
                caller,
                receiver,
                base,
                value,
            ),
    {
        match receiver {
            Some(frame) => match self.store.get_at(frame, 0, "this") {
                Some(this) => {
                    self.environment = caller;
                    self.values.truncate(base);
                    self.give(this)
                },
                None => self.fail(RuntimeError::EnvironmentCreationError),
            },
            None => {
                self.environment = caller;
                self.values.truncate(base);
                self.give(value)
            },
        }
    }

    fn visit_return(&mut self, node: &'a StmtReturn<'a>, value: Value) -> (action: Action<'a>)
        ensures
            (final(self)@, action) == semantics::return_value(old(self)@, node, value),
    {
        let ghost before = self.tasks@;
        loop
            invariant
                self.tasks@.len() <= before.len(),
                self.tasks@ == before.subrange(0, self.tasks@.len() as int),
                semantics::call_boundary(self.tasks@) == semantics::call_boundary(before),
                before == old(self).tasks@,
                self.store == old(self).store,
                self.values == old(self).values,
                self.environment == old(self).environment,
                self.globals == old(self).globals,
                self.locals == old(self).locals,
                self.awaiting == old(self).awaiting,
            decreases self.tasks@.len(),
        {
            let ghost here = self.tasks@;
            match self.tasks.pop() {
                None => {
                    return self.fail(
                        RuntimeError::ResolverError(
                            ResolverError::TopLevelReturn { token: node.keyword },
                        ),
                    );
                },
                Some(Task::FinishCall { caller, receiver, base }) => {
                    proof {
                        let at = here.len() - 1;
                        assert(semantics::call_boundary(here) == at);
                        assert(before[at] == here[at]);
                        assert(self.tasks@ =~= before.subrange(0, at));
                    }
                    return self.finish_call(caller, receiver, base, value);
                },
                Some(_) => {
                    assert(self.tasks@ =~= before.subrange(0, self.tasks@.len() as int));
                },
            }
        }
    }

    fn execute(&mut self, stmt: &'a Stmt<'a>) -> (action: Action<'a>)
        ensures
            (final(self)@, action) == semantics::execute(old(self)@, stmt),
    {
        match stmt {
            Stmt::Block(node) => {
                let frame = self.store.add_frame(Some(self.environment));
                self.tasks.push(Task::LeaveBlock(self.environment));
                self.tasks.push(Task::Sequence(&node.statements, 0));
                self.environment = frame;
                Action::Continue
            },
            Stmt::Class(node) => match &node.superclass {
                Some(parent) => self.schedule(Task::DeclareClass(node), Task::Evaluate(parent)),
                None => self.visit_class(node, None),
            },
            Stmt::Expression(node) => self.schedule(Task::Discard, Task::Evaluate(&node.expr)),
            Stmt::Function(node) => {
                let function = self.store.add_function(
                    LoxFunction::new(node, self.environment, false),
                );
                self.define(node.name.lexeme, Some(Value::Callable(Callable::Function(function))))
            },
            Stmt::If(node) => self.schedule(Task::Branch(node), Task::Evaluate(&node.condition)),
            Stmt::Print(node) => self.schedule(Task::Print, Task::Evaluate(&node.expr)),
            Stmt::Return(node) => match &node.value {
                Some(value) => self.schedule(Task::Return(node), Task::Evaluate(value)),
                None => self.visit_return(node, Value::Nil),
            },
            Stmt::Var(node) => match &node.initializer {
                Some(value) => self.schedule(Task::DefineVar(node), Task::Evaluate(value)),
                None => self.define(node.name.lexeme, None),
            },
            Stmt::While(node) => self.schedule(Task::Loop(node), Task::Evaluate(&node.condition)),
        }
    }

    fn visit_unary(&mut self, node: &'a ExprUnary<'a>, value: Value) -> (action: Action<'a>)
        ensures
            (final(self)@, action) == semantics::unary(old(self)@, node, value),
    {
        match node.operator.kind {
            TokenType::Minus => match value {
                Value::Number(n) => self.ask(Awaiting::Number, Action::Negate(n)),
                _ => self.fail(RuntimeError::NumberOperand { operator: node.operator }),
            },
            TokenType::Bang => self.give(value.not()),
            _ => self.fail(RuntimeError::NumberOperand { operator: node.operator }),
        }
    }

    /// Whether two values of which at most one is a number are equal.
    fn same(&self, left: Value, right: Value) -> (same: bool)
        ensures
            same == semantics::same(self@.store, left, right),
    {
        match (left, right) {
            (Value::String(a), Value::String(b)) => self.store.same_text(a, b),
            _ => left == right,
        }
    }

    fn visit_binary(&mut self, node: &'a ExprBinary<'a>, left: Value, right: Value) -> (action:
        Action<'a>)
        ensures
            (final(self)@, action) == semantics::binary(old(self)@, node, left, right),
    {
        let kind = node.operator.kind;
        if kind == TokenType::EqualEqual || kind == TokenType::BangEqual {
            return match (left, right) {
                (Value::Number(l), Value::Number(r)) => match comparison(kind) {
                    Some(comparison) => self.ask(
                        Awaiting::Boolean,
                        Action::Compare(comparison, l, r),
                    ),
                    None => self.fail(internal_error()),
                },
                _ => {
                    let same = self.same(left, right);
                    self.give(Value::Boolean(same == (kind == TokenType::EqualEqual)))
                },
            };
        }
        if let Some(comparison) = comparison(kind) {
            return match (left, right) {
                (Value::Number(l), Value::Number(r)) => self.ask(
                    Awaiting::Boolean,
                    Action::Compare(comparison, l, r),
                ),
                _ => self.fail(RuntimeError::MutlipleNumberOperands { operator: node.operator }),
            };
        }
        if kind == TokenType::Plus {
            return match (left, right) {
                (Value::Number(l), Value::Number(r)) => self.ask(
                    Awaiting::Number,
                    Action::Calculate(Arithmetic::Add, l, r),
                ),
                (Value::String(l), Value::String(r)) => match self.store.concat(l, r) {
                    Some(at) => self.give(Value::String(at)),
                    None => self.fail(internal_error()),
                },
                _ => self.fail(RuntimeError::NumberOrStringOperands { operator: node.operator }),
            };
        }
        if let Some(operation) = arithmetic(kind) {
            return match (left, right) {
                (Value::Number(l), Value::Number(r)) => self.ask(
                    Awaiting::Number,
                    Action::Calculate(operation, l, r),
                ),
                _ => self.fail(RuntimeError::MutlipleNumberOperands { operator: node.operator }),
            };
        }
        self.give(Value::Nil)
    }

    fn invoke(&mut self, function: LoxFunction<'a>, arguments: Vec<Value>) -> (action: Action<'a>)
        ensures
            (final(self)@, action) == semantics::invoke(old(self)@, function, arguments@),
    {
        let frame = self.store.add_frame(Some(function.closure));
        let ghost framed = self.store@;
        let parameters = &function.declaration.params;
        let mut i: usize = 0;
        while i < parameters.len() && i < arguments.len()
            invariant
                i <= parameters@.len(),
                parameters@ == function.declaration.params@,
                semantics::bind_parameters(self.store@, frame, parameters@, arguments@, i as int)
                    == semantics::bind_parameters(framed, frame, parameters@, arguments@, 0),
                self.tasks == old(self).tasks,
                self.values == old(self).values,
                self.environment == old(self).environment,
                self.globals == old(self).globals,
                self.locals == old(self).locals,
                self.awaiting == old(self).awaiting,
            decreases parameters@.len() - i,
        {
            self.store.define(frame, parameters[i].lexeme, Some(arguments[i]));
            i += 1;
        }
        self.tasks.push(
            Task::FinishCall {
                caller: self.environment,
                receiver: if function.is_initializer {
                    Some(function.closure)
                } else {
                    None
                },
                base: self.values.len(),
            },
        );
        self.tasks.push(Task::Sequence(&function.declaration.body, 0));
        self.environment = frame;
        Action::Continue
    }

    fn visit_call(&mut self, node: &'a ExprCall<'a>) -> (action: Action<'a>)
        ensures
            (final(self)@, action) == semantics::call(old(self)@, node),
    {
        let count = node.arguments.len();
        if self.values.len() <= count {
            return self.fail(internal_error());
        }
        let base = self.values.len() - count - 1;
        let arguments = self.values.split_off(base + 1);
        let callee = self.values.pop();
        let ghost rest = self@;
        assert(rest.values =~= old(self)@.values.subrange(0, base as int));
        let callable = match callee {
            Some(Value::Callable(callable)) => callable,
            _ => {
                return self.fail(RuntimeError::NotCallable { token: node.paren });
            },
        };
        let expected = match self.store.arity(callable) {
            Some(expected) => expected,
            None => {
                return self.fail(internal_error());
            },
        };
        if expected != count {
            return self.fail(
                RuntimeError::ArgumentCount {
                    token: node.paren,
                    expected_arity: expected,
                    given_len: count,
                },
            );
        }
        match callable {
            Callable::Native(_) => self.ask(Awaiting::Number, Action::Clock),
            Callable::Function(at) => match self.store.function(at) {
                Some(function) => self.invoke(function, arguments),
                None => self.fail(internal_error()),
            },
            Callable::Class(at) => {
                let initializer = self.store.find_method(at, "init");
                let instance = self.store.add_instance(at);
                match initializer {
                    Some(initializer) => {
                        let bound = self.store.bind_method(initializer, instance);
                        match self.store.function(bound) {
                            Some(function) => self.invoke(function, arguments),
                            None => self.fail(internal_error()),
                        }
                    },
                    None => self.give(Value::Instance(instance)),
                }
            },
        }
    }

    fn perform(&mut self, task: Task<'a>) -> (action: Action<'a>)
        ensures
            (final(self)@, action) == semantics::perform(old(self)@, task),
    {
        match task {
            Task::Sequence(list, from) => {
                if from < list.len() {
                    self.schedule(Task::Sequence(list, from + 1), Task::Execute(&list[from]))
                } else {
                    Action::Continue
                }
            },
            Task::Arguments(list, from) => {
                if from < list.len() {
                    self.schedule(Task::Arguments(list, from + 1), Task::Evaluate(&list[from]))
                } else {
                    Action::Continue
                }
            },
            Task::Execute(stmt) => self.execute(stmt),
            Task::Evaluate(expr) => self.evaluate(expr),
            Task::LeaveBlock(frame) => {
                self.environment = frame;
                Action::Continue
            },
            Task::FinishCall { caller, receiver, base } => self.finish_call(
                caller,
                receiver,
                base,
                Value::Nil,
            ),
            Task::DeclareClass(node) => {
                let count = self.values.len();
                if count == 0 {
                    return self.fail(internal_error());
                }
                match self.values[count - 1] {
                    Value::Callable(Callable::Class(parent)) => {
                        self.values.pop();
                        self.visit_class(node, Some(parent))
                    },
                    _ => self.fail(
                        RuntimeError::ClassError(
                            ClassError::SuperclassNotAClass { token: node.name },
                        ),
                    ),
                }
            },
            Task::CallCheck(node) => {
                let count = self.values.len();
                if count == 0 {
                    return self.fail(internal_error());
                }
                match self.values[count - 1] {
                    Value::Callable(_) => self.schedule(
                        Task::Call(node),
                        Task::Arguments(&node.arguments, 0),
                    ),
                    _ => self.fail(RuntimeError::NotCallable { token: node.paren }),
                }
            },
            Task::Call(node) => self.visit_call(node),
            Task::LogicalRight(node) => {
                let count = self.values.len();
                if count == 0 {
                    return self.fail(internal_error());
                }
                let left = self.values[count - 1];
                if (node.operator.kind == TokenType::Or && left.is_truthy()) || (node.operator.kind
                    == TokenType::And && !left.is_truthy()) {
                    Action::Continue
                } else {
                    self.values.pop();
                    self.tasks.push(Task::Evaluate(&*node.right));
                    Action::Continue
                }
            },
            Task::SetCheck(node) => {
                let count = self.values.len();
                if count == 0 {
                    return self.fail(internal_error());
                }
                match self.values[count - 1] {
                    Value::Instance(_) => self.schedule(
                        Task::SetStore(node),
                        Task::Evaluate(&*node.value),
                    ),
                    _ => self.fail(
                        RuntimeError::ClassError(
                            ClassError::InvalidPropertyAccess { token: node.name },
                        ),
                    ),
                }
            },
            Task::SetStore(node) => {
                let count = self.values.len();
                if count < 2 {
                    return self.fail(internal_error());
                }
                let value = self.values[count - 1];
                match self.values[count - 2] {
                    Value::Instance(instance) => {
                        if instance < self.store.instances() {
                            self.values.pop();
                            self.values.pop();
                            self.store.set_field(instance, node.name, value);
                            self.give(value)
                        } else {
                            self.fail(internal_error())
                        }
                    },
                    _ => self.fail(
                        RuntimeError::ClassError(
                            ClassError::InvalidPropertyAccess { token: node.name },
                        ),
                    ),
                }
            },
            Task::Binary(node) => {
                let count = self.values.len();
                if count < 2 {
                    return self.fail(internal_error());
                }
                let right = self.values[count - 1];
                let left = self.values[count - 2];
                self.values.pop();
                self.values.pop();
                self.visit_binary(node, left, right)
            },
            _ => match self.values.pop() {
                Some(value) => self.consume(task, value),
                None => self.fail(internal_error()),
            },
        }
    }

    fn consume(&mut self, task: Task<'a>, value: Value) -> (action: Action<'a>)
        ensures
            (final(self)@, action) == semantics::consume(old(self)@, task, value),
    {
        match task {
            Task::Discard => Action::Continue,
            Task::Print => Action::Print(value),
            Task::DefineVar(node) => self.define(node.name.lexeme, Some(value)),
            Task::Branch(node) => {
                if value.is_truthy() {
                    self.tasks.push(Task::Execute(&*node.then_branch));
                } else {
                    match &node.else_branch {
                        Some(branch) => {
                            self.tasks.push(Task::Execute(&**branch));
                        },
                        None => {},
                    }
                }
                Action::Continue
            },
            Task::Loop(node) => {
                if value.is_truthy() {
                    self.tasks.push(Task::Loop(node));
                    self.schedule(Task::Evaluate(&node.condition), Task::Execute(&*node.body))
                } else {
                    Action::Continue
                }
            },
            Task::Return(node) => self.visit_return(node, value),
            Task::Unary(node) => self.visit_unary(node, value),
            Task::GetProperty(node) => match value {
                Value::Instance(instance) => match self.store.get_property(instance, node.name) {
                    Ok(property) => self.give(property),
                    Err(error) => self.fail(error),
                },
                _ => self.fail(
                    RuntimeError::ClassError(
                        ClassError::InvalidPropertyAccess { token: node.name },
                    ),
                ),
            },
            Task::Assign(node) => match self.depth(node.name.span.begin) {
                Some(distance) => {
                    if self.store.assign_at(self.environment, distance, node.name, value) {
                        self.give(value)
                    } else {
                        self.fail(internal_error())
                    }
                },
                None => match self.store.assign(self.globals, node.name, value) {
                    Ok(()) => self.give(value),
                    Err(error) => self.fail(error),
                },
            },
            _ => self.fail(internal_error()),
        }
    }
}

/// The error of a machine whose state no program can bring about.
fn internal_error<'a>() -> (error: RuntimeError<'a>)
    ensures
        error == semantics::internal::<'a>(),
{
    RuntimeError::CallableError(CallableError::InternalError)
}

/// The operation on numbers that an operator stands for.
fn arithmetic(kind: TokenType) -> (operation: Option<Arithmetic>)
    ensures
        operation == semantics::arithmetic_of(kind),
{
    match kind {
        TokenType::Minus => Some(Arithmetic::Subtract),
        TokenType::Slash => Some(Arithmetic::Divide),
        TokenType::Star => Some(Arithmetic::Multiply),
        TokenType::Plus => Some(Arithmetic::Add),
        _ => None,
    }
}

/// The comparison that an operator stands for.
fn comparison(kind: TokenType) -> (comparison: Option<Comparison>)
    ensures
        comparison == semantics::comparison_of(kind),
{
    match kind {
        TokenType::Greater => Some(Comparison::Greater),
        TokenType::GreaterEqual => Some(Comparison::GreaterEqual),
        TokenType::Less => Some(Comparison::Less),
        TokenType::LessEqual => Some(Comparison::LessEqual),
        TokenType::EqualEqual => Some(Comparison::Equal),
        TokenType::BangEqual => Some(Comparison::NotEqual),
        _ => None,
    }
}

} // verus!
