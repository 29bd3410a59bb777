//! Environments: frames of named bindings, each with a link to the frame
//! that encloses it.

use vstd::prelude::*;
use crate::lex::Token;
use crate::names::NameTable;
use super::error::RuntimeError;
use super::value::Value;

verus! {

/// A frame of bindings. A name that is declared and not yet initialised is
/// bound to nothing and reads as `nil`.
pub struct Environment<'a> {
    values: NameTable<'a, Option<Value>>,
    enclosing: Option<usize>,
}

/// The mathematical view of a frame.
pub struct EnvironmentView {
    pub values: Map<Seq<char>, Option<Value>>,
    pub enclosing: Option<usize>,
}

impl<'a> View for Environment<'a> {
    type V = EnvironmentView;

    closed spec fn view(&self) -> EnvironmentView {
        EnvironmentView { values: self.values@, enclosing: self.enclosing }
    }
}

impl<'a> Environment<'a> {
    /// An empty frame inside the frame `enclosing`.
    pub fn new(enclosing: Option<usize>) -> (frame: Self)
        ensures
            frame@ == (EnvironmentView { values: Map::empty(), enclosing }),
    {
        Self { values: NameTable::new(), enclosing }
    }

    /// Binds `name` in this frame, in place of what it was bound to before.
    pub fn define(&mut self, name: &'a str, value: Option<Value>)
        ensures
            final(self)@ == (EnvironmentView {
                values: old(self)@.values.insert(name@, value),
                enclosing: old(self)@.enclosing,
            }),
    {
        self.values.insert(name, value);
    }

    /// What `name` is bound to in this frame.
    pub fn lookup(&self, name: &str) -> (bound: Option<Option<Value>>)
        ensures
            bound == if self@.values.contains_key(name@) {
                Some(self@.values[name@])
            } else {
                None
            },
    {
        match self.values.get(name) {
            Some(value) => Some(*value),
            None => None,
        }
    }
}

/// The value that a binding reads as.
pub open spec fn read(bound: Option<Value>) -> Value {
    match bound {
        Some(value) => value,
        None => Value::Nil,
    }
}

/// The frame that lies `distance` links out from the frame `from`.
pub open spec fn ancestor(frames: Seq<EnvironmentView>, from: usize, distance: nat) -> Option<
    usize,
>
    decreases distance,
{
    if from >= frames.len() {
        None
    } else if distance == 0 {
        Some(from)
    } else {
        match frames[from as int].enclosing {
            Some(outer) => ancestor(frames, outer, (distance - 1) as nat),
            None => None,
        }
    }
}

/// The innermost frame from `from` outwards that binds `name`. A link counts
/// only where it leads to an older frame.
pub open spec fn binding_frame(frames: Seq<EnvironmentView>, from: usize, name: Seq<char>) -> Option<
    usize,
>
    decreases from,
{
    if from >= frames.len() {
        None
    } else if frames[from as int].values.contains_key(name) {
        Some(from)
    } else {
        match frames[from as int].enclosing {
            Some(outer) => if outer < from {
                binding_frame(frames, outer, name)
            } else {
                None
            },
            None => None,
        }
    }
}

/// What reading `name` from the frame `from` gives: the value of the
/// innermost binding, found by walking outwards.
pub open spec fn get<'a>(frames: Seq<EnvironmentView>, from: usize, name: Token<'a>) -> Result<
    Value,
    RuntimeError<'a>,
> {
    match binding_frame(frames, from, name.lexeme@) {
        Some(at) => Ok(read(frames[at as int].values[name.lexeme@])),
        None => Err(RuntimeError::UndefinedVariable { name }),
    }
}

/// The frames after `name` is bound to `value` in the frame `at`.
pub open spec fn bind(
    frames: Seq<EnvironmentView>,
    at: usize,
    name: Seq<char>,
    value: Option<Value>,
) -> Seq<EnvironmentView> {
    if at < frames.len() {
        frames.update(
            at as int,
            EnvironmentView {
                values: frames[at as int].values.insert(name, value),
                enclosing: frames[at as int].enclosing,
            },
        )
    } else {
        frames
    }
}

/// What assigning `value` to `name` from the frame `from` gives: the frames
/// with the innermost binding of the name changed.
pub open spec fn assign<'a>(
    frames: Seq<EnvironmentView>,
    from: usize,
    name: Token<'a>,
    value: Value,
) -> Result<Seq<EnvironmentView>, RuntimeError<'a>> {
    match binding_frame(frames, from, name.lexeme@) {
        Some(at) => Ok(bind(frames, at, name.lexeme@, Some(value))),
        None => Err(RuntimeError::UndefinedVariable { name }),
    }
}

/// What reading `name` exactly `distance` links out from `from` gives. No
/// other frame is searched.
pub open spec fn get_at(
    frames: Seq<EnvironmentView>,
    from: usize,
    distance: nat,
    name: Seq<char>,
) -> Option<Value> {
    match ancestor(frames, from, distance) {
        Some(at) => if frames[at as int].values.contains_key(name) {
            Some(read(frames[at as int].values[name]))
        } else {
            None
        },
        None => None,
    }
}

/// What binding `name` to `value` exactly `distance` links out from `from`
/// gives; the binding is made where it does not exist yet.
pub open spec fn assign_at(
    frames: Seq<EnvironmentView>,
    from: usize,
    distance: nat,
    name: Seq<char>,
    value: Value,
) -> Option<Seq<EnvironmentView>> {
    match ancestor(frames, from, distance) {
        Some(at) => Some(bind(frames, at, name, Some(value))),
        None => None,
    }
}

/// The views of a list of frames.
pub open spec fn frames_view(frames: Seq<Environment>) -> Seq<EnvironmentView> {
    Seq::new(frames.len(), |i: int| frames[i]@)
}

/// All the frames of a running program, each known by its place.
pub struct Environments<'a> {
    frames: Vec<Environment<'a>>,
}

impl<'a> View for Environments<'a> {
    type V = Seq<EnvironmentView>;

    closed spec fn view(&self) -> Seq<EnvironmentView> {
        frames_view(self.frames@)
    }
}

impl<'a> Environments<'a> {
    /// No frame at all.
    pub fn new() -> (frames: Self)
        ensures
            frames@ == Seq::<EnvironmentView>::empty(),
    {
        let frames = Self { frames: Vec::new() };
        assert(frames@ =~= Seq::<EnvironmentView>::empty());
        frames
    }

    /// Adds an empty frame inside the frame `enclosing` and gives its place.
    /// Any link is taken, but reading and assigning follow a link to an older
    /// frame only; a link to a frame that these frames hold is such a link.
    pub fn create(&mut self, enclosing: Option<usize>) -> (at: usize)
        ensures
            at == old(self)@.len(),
            final(self)@ == old(self)@.push(EnvironmentView { values: Map::empty(), enclosing }),
            enclosing is Some && enclosing->0 < old(self)@.len() ==> final(self)@[at as int].enclosing->0 < at,
    {
        let at = self.frames.len();
        self.frames.push(Environment::new(enclosing));
        assert(self@ =~= old(self)@.push(EnvironmentView { values: Map::empty(), enclosing }));
        at
    }

    /// Binds `name` in the frame `at`; there is no such frame where the
    /// result is `false`.
    pub fn define(&mut self, at: usize, name: &'a str, value: Option<Value>) -> (done: bool)
        ensures
            done == (at < old(self)@.len()),
            final(self)@ == bind(old(self)@, at, name@, value),
    {
        if at >= self.frames.len() {
            return false;
        }
        self.frames[at].define(name, value);
        assert(self@ =~= bind(old(self)@, at, name@, value));
        true
    }

    /// The frame that lies `distance` links out from the frame `from`.
    pub fn ancestor(&self, from: usize, distance: usize) -> (at: Option<usize>)
        ensures
            at == ancestor(self@, from, distance as nat),
            at is Some ==> at->0 < self@.len(),
    {
        let mut current = from;
        let mut left = distance;
        loop
            invariant
                left <= distance,
                ancestor(self@, current, left as nat) == ancestor(self@, from, distance as nat),
            decreases left,
        {
            if current >= self.frames.len() {
                return None;
            }
            if left == 0 {
                return Some(current);
            }
            match self.frames[current].enclosing {
                Some(outer) => {
                    current = outer;
                    left -= 1;
                },
                None => {
                    return None;
                },
            }
        }
    }

    /// The innermost frame from `from` outwards that binds `name`.
    pub fn binding_frame(&self, from: usize, name: &str) -> (at: Option<usize>)
        ensures
            at == binding_frame(self@, from, name@),
            at is Some ==> at->0 < self@.len() && self@[at->0 as int].values.contains_key(name@),
    {
        let mut current = from;
        loop
            invariant
                binding_frame(self@, current, name@) == binding_frame(self@, from, name@),
            decreases current,
        {
            if current >= self.frames.len() {
                return None;
            }
            if self.frames[current].lookup(name).is_some() {
                return Some(current);
            }
            match self.frames[current].enclosing {
                Some(outer) => {
                    if outer < current {
                        current = outer;
                    } else {
                        return None;
                    }
                },
                None => {
                    return None;
                },
            }
        }
    }

    /// Reads `name` from the frame `from`, walking outwards; a name that no
    /// frame binds is an undefined variable.
    pub fn get(&self, from: usize, name: Token<'a>) -> (value: Result<Value, RuntimeError<'a>>)
        ensures
            value == get(self@, from, name),
    {
        match self.binding_frame(from, name.lexeme) {
            Some(at) => match self.frames[at].lookup(name.lexeme) {
                Some(Some(value)) => Ok(value),
                _ => Ok(Value::Nil),
            },
            None => Err(RuntimeError::UndefinedVariable { name }),
        }
    }

    /// Assigns `value` to the innermost binding of `name` from the frame
    /// `from` outwards; a name that no frame binds is an undefined variable.
    pub fn assign(&mut self, from: usize, name: Token<'a>, value: Value) -> (done: Result<
        (),
        RuntimeError<'a>,
    >)
        ensures
            match assign(old(self)@, from, name, value) {
                Ok(frames) => done is Ok && final(self)@ == frames,
                Err(error) => done == Err::<(), RuntimeError<'a>>(error) && final(self)@ == old(self)@,
            },
    {
        match self.binding_frame(from, name.lexeme) {
            Some(at) => {
                self.define(at, name.lexeme, Some(value));
                Ok(())
            },
            None => Err(RuntimeError::UndefinedVariable { name }),
        }
    }

    /// Reads `name` exactly `distance` links out from `from`; `None` where
    /// there is no such frame or the frame does not bind the name.
    pub fn get_at(&self, from: usize, distance: usize, name: &str) -> (value: Option<Value>)
        ensures
            value == get_at(self@, from, distance as nat, name@),
    {
        match self.ancestor(from, distance) {
            Some(at) => match self.frames[at].lookup(name) {
                Some(Some(value)) => Some(value),
                Some(None) => Some(Value::Nil),
                None => None,
            },
            None => None,
        }
    }

    /// Binds `name` to `value` exactly `distance` links out from `from`;
    /// `false` where there is no such frame.
    pub fn assign_at(&mut self, from: usize, distance: usize, name: Token<'a>, value: Value) -> (done:
        bool)
        ensures
            match assign_at(old(self)@, from, distance as nat, name.lexeme@, value) {
                Some(frames) => done && final(self)@ == frames,
                None => !done && final(self)@ == old(self)@,
            },
    {
        match self.ancestor(from, distance) {
            Some(at) => {
                self.define(at, name.lexeme, Some(value));
                true
            },
            None => false,
        }
    }

    /// The number of frames is a number of the machine.
    pub proof fn lemma_size(&self)
        ensures
            self@.len() <= usize::MAX,
    {
        vstd::std_specs::vec::axiom_spec_len(&self.frames);
    }
}

/// Binding a name in a frame changes no link, and so not which frame a
/// name is found in, unless it is the name bound.
proof fn lemma_bind_keeps_the_search(
    frames: Seq<EnvironmentView>,
    at: usize,
    name: Seq<char>,
    value: Option<Value>,
    from: usize,
    other: Seq<char>,
)
    requires
        other != name || (at < frames.len() && frames[at as int].values.contains_key(name)),
    ensures
        binding_frame(bind(frames, at, name, value), from, other) == binding_frame(
            frames,
            from,
            other,
        ),
    decreases from,
{
    if from < frames.len() && !frames[from as int].values.contains_key(other) {
        if let Some(outer) = frames[from as int].enclosing {
            if outer < from {
                lemma_bind_keeps_the_search(frames, at, name, value, outer, other);
            }
        }
    }
}

/// A name that is bound in a frame is read from that frame, whatever the
/// frames around it bind: the innermost binding shadows the others.
pub proof fn lemma_bound_is_read<'a>(
    frames: Seq<EnvironmentView>,
    at: usize,
    name: Token<'a>,
    value: Value,
)
    requires
        at < frames.len(),
    ensures
        get(bind(frames, at, name.lexeme@, Some(value)), at, name) == Ok::<Value, RuntimeError<'a>>(
            value,
        ),
{
}

/// What was assigned is read: after an assignment that succeeds, reading
/// the name from the same frame gives the value assigned, and every other
/// name is found in the frame in which it was found before. An assignment to
/// a name that no frame of the chain binds is an error.
pub proof fn lemma_assigned_is_read<'a>(
    frames: Seq<EnvironmentView>,
    from: usize,
    name: Token<'a>,
    value: Value,
    other: Seq<char>,
)
    ensures
        assign(frames, from, name, value) is Err <==> binding_frame(frames, from, name.lexeme@)
            is None,
        assign(frames, from, name, value) is Ok ==> {
            &&& get(assign(frames, from, name, value)->Ok_0, from, name) == Ok::<
                Value,
                RuntimeError<'a>,
            >(value)
            &&& binding_frame(assign(frames, from, name, value)->Ok_0, from, other)
                == binding_frame(frames, from, other)
        },
{
    if let Some(at) = binding_frame(frames, from, name.lexeme@) {
        lemma_found_frame_binds(frames, from, name.lexeme@);
        lemma_bind_keeps_the_search(frames, at, name.lexeme@, Some(value), from, name.lexeme@);
        lemma_bind_keeps_the_search(frames, at, name.lexeme@, Some(value), from, other);
    }
}

/// The frame in which a name is found is a frame that binds the name.
pub proof fn lemma_found_frame_binds(frames: Seq<EnvironmentView>, from: usize, name: Seq<char>)
    ensures
        binding_frame(frames, from, name) is Some ==> binding_frame(frames, from, name)->0
            < frames.len() && frames[binding_frame(frames, from, name)->0 as int].values.contains_key(
            name,
        ),
    decreases from,
{
    if from < frames.len() && !frames[from as int].values.contains_key(name) {
        if let Some(outer) = frames[from as int].enclosing {
            if outer < from {
                lemma_found_frame_binds(frames, outer, name);
            }
        }
    }
}

} // verus!
