//! How the frames of a running program mirror the scopes of resolving: the
//! depth that is recorded for a use of a variable leads, frame by frame, to
//! the frame that binds it.

use vstd::prelude::*;
use super::environment::{ancestor, bind, get_at, EnvironmentView};
use super::scoping::{depth_of, Scope};

verus! {

/// Whether the scope holds `name` as a defined name.
pub open spec fn defines(scope: Scope, name: Seq<char>) -> bool {
    scope.contains_key(name) && scope[name]
}

/// Whether the chain of frames from `env` outwards mirrors the scope stack:
/// the frame `env` binds every name that the innermost scope defines, the
/// frame that encloses it, an older frame, does so for the next scope, and
/// so on for every scope of the stack.
pub open spec fn models(frames: Seq<EnvironmentView>, env: usize, scopes: Seq<Scope>) -> bool
    decreases scopes.len(),
{
    &&& env < frames.len()
    &&& scopes.len() > 0 ==> {
        &&& forall|name: Seq<char>|
            defines(scopes.last(), name) ==> #[trigger] frames[env as int].values.contains_key(
                name,
            )
        &&& frames[env as int].enclosing is Some
        &&& frames[env as int].enclosing->0 < env
        &&& models(frames, frames[env as int].enclosing->0, scopes.drop_last())
    }
}

/// The frames that mirror a scope stack are more than the scopes: each scope
/// has a frame of its own.
pub proof fn lemma_models_bounds_the_scopes(
    frames: Seq<EnvironmentView>,
    env: usize,
    scopes: Seq<Scope>,
)
    requires
        models(frames, env, scopes),
    ensures
        scopes.len() <= env,
        scopes.len() < frames.len(),
    decreases scopes.len(),
{
    if scopes.len() > 0 {
        lemma_models_bounds_the_scopes(frames, frames[env as int].enclosing->0, scopes.drop_last());
    }
}

/// Whether `after` is `before` with more frames and more bindings: every
/// frame keeps its link and its names.
pub open spec fn grows(before: Seq<EnvironmentView>, after: Seq<EnvironmentView>) -> bool {
    &&& before.len() <= after.len()
    &&& forall|i: int|
        0 <= i < before.len() ==> (#[trigger] after[i]).enclosing == before[i].enclosing
    &&& forall|i: int, name: Seq<char>|
        0 <= i < before.len() && before[i].values.contains_key(name) ==> #[trigger] after[i].values.contains_key(
            name,
        )
}

pub proof fn lemma_grows_transitive(
    a: Seq<EnvironmentView>,
    b: Seq<EnvironmentView>,
    c: Seq<EnvironmentView>,
)
    requires
        grows(a, b),
        grows(b, c),
    ensures
        grows(a, c),
{
    assert forall|i: int| 0 <= i < a.len() implies (#[trigger] c[i]).enclosing
        == a[i].enclosing by {
        assert(b[i].enclosing == a[i].enclosing);
    }
    assert forall|i: int, name: Seq<char>|
        0 <= i < a.len() && a[i].values.contains_key(name) implies #[trigger] c[i].values.contains_key(
        name,
    ) by {
        assert(b[i].values.contains_key(name));
    }
}

/// Binding a name in a frame makes the frames grow.
pub proof fn lemma_bind_grows(
    frames: Seq<EnvironmentView>,
    at: usize,
    name: Seq<char>,
    value: Option<super::value::Value>,
)
    ensures
        grows(frames, bind(frames, at, name, value)),
        bind(frames, at, name, value).len() == frames.len(),
        at < frames.len() ==> bind(frames, at, name, value)[at as int].values.contains_key(name),
{
}

/// One more frame makes the frames grow.
pub proof fn lemma_push_grows(frames: Seq<EnvironmentView>, frame: EnvironmentView)
    ensures
        grows(frames, frames.push(frame)),
{
}

/// Frames that mirror a scope stack still do after they have grown.
pub proof fn lemma_models_after_growth(
    before: Seq<EnvironmentView>,
    after: Seq<EnvironmentView>,
    env: usize,
    scopes: Seq<Scope>,
)
    requires
        models(before, env, scopes),
        grows(before, after),
    ensures
        models(after, env, scopes),
    decreases scopes.len(),
{
    if scopes.len() > 0 {
        assert(after[env as int].enclosing == before[env as int].enclosing);
        lemma_models_after_growth(
            before,
            after,
            before[env as int].enclosing->0,
            scopes.drop_last(),
        );
        assert forall|name: Seq<char>| defines(scopes.last(), name) implies #[trigger] after[env as int].values.contains_key(
            name,
        ) by {
            assert(before[env as int].values.contains_key(name));
        }
    }
}

/// The frames that mirror a scope stack reach as far out as the stack is
/// deep: the depth of a name leads to a frame, and that frame binds the name
/// where the scope at that depth defines it.
pub proof fn lemma_depth_leads_to_the_binding(
    frames: Seq<EnvironmentView>,
    env: usize,
    scopes: Seq<Scope>,
    name: Seq<char>,
)
    requires
        models(frames, env, scopes),
        depth_of(scopes, name) is Some,
    ensures
        ancestor(frames, env, depth_of(scopes, name)->0) is Some,
        ancestor(frames, env, depth_of(scopes, name)->0)->0 < frames.len(),
        depth_of(scopes, name)->0 < scopes.len(),
        scopes[scopes.len() - 1 - depth_of(scopes, name)->0].contains_key(name),
        defines(scopes[scopes.len() - 1 - depth_of(scopes, name)->0], name) ==> get_at(
            frames,
            env,
            depth_of(scopes, name)->0,
            name,
        ) is Some,
    decreases scopes.len(),
{
    if scopes.len() > 0 && !scopes.last().contains_key(name) {
        let outer = frames[env as int].enclosing->0;
        lemma_depth_leads_to_the_binding(frames, outer, scopes.drop_last(), name);
        let depth = depth_of(scopes.drop_last(), name)->0;
        assert(depth_of(scopes, name) == Some(depth + 1));
        assert(ancestor(frames, env, depth + 1) == ancestor(frames, outer, depth));
        assert(scopes.drop_last()[scopes.len() - 2 - depth] == scopes[scopes.len() - 2 - depth]);
    }
}

/// The frame that lies `distance` links out from a frame that mirrors a scope
/// stack mirrors the stack without its `distance` innermost scopes.
pub proof fn lemma_ancestor_models(
    frames: Seq<EnvironmentView>,
    env: usize,
    scopes: Seq<Scope>,
    distance: nat,
)
    requires
        models(frames, env, scopes),
        distance <= scopes.len(),
    ensures
        ancestor(frames, env, distance) is Some,
        models(
            frames,
            ancestor(frames, env, distance)->0,
            scopes.subrange(0, scopes.len() - distance),
        ),
    decreases distance,
{
    if distance == 0 {
        assert(scopes.subrange(0, scopes.len() as int) =~= scopes);
    } else {
        let outer = frames[env as int].enclosing->0;
        lemma_ancestor_models(frames, outer, scopes.drop_last(), (distance - 1) as nat);
        assert(scopes.drop_last().subrange(0, scopes.len() - 1 - (distance - 1)) =~= scopes.subrange(
            0,
            scopes.len() - distance,
        ));
    }
}

/// The scope stack with `name` declared in the innermost scope, as defined
/// or not; outside every scope nothing is declared.
pub open spec fn declared(scopes: Seq<Scope>, name: Seq<char>, defined: bool) -> Seq<Scope> {
    if scopes.len() == 0 {
        scopes
    } else {
        scopes.drop_last().push(scopes.last().insert(name, defined))
    }
}

/// Frames that mirror a scope stack mirror the stack with one more name
/// declared, where the current frame binds that name or the name is not yet
/// defined.
pub proof fn lemma_models_declared(
    frames: Seq<EnvironmentView>,
    env: usize,
    scopes: Seq<Scope>,
    name: Seq<char>,
    defined: bool,
)
    requires
        models(frames, env, scopes),
        !defined || frames[env as int].values.contains_key(name),
    ensures
        models(frames, env, declared(scopes, name, defined)),
{
    if scopes.len() > 0 {
        let next = declared(scopes, name, defined);
        assert(next.drop_last() =~= scopes.drop_last());
        assert forall|other: Seq<char>| defines(next.last(), other) implies #[trigger] frames[env as int].values.contains_key(
            other,
        ) by {
            if other != name {
                assert(defines(scopes.last(), other));
            }
        }
    }
}

/// A name that is declared without being defined asks nothing of the
/// frames: frames mirror the stack with the name taken as undefined where
/// they mirror it with the name as it is.
pub proof fn lemma_models_undefined(
    frames: Seq<EnvironmentView>,
    env: usize,
    scopes: Seq<Scope>,
    name: Seq<char>,
)
    requires
        models(frames, env, scopes),
    ensures
        models(frames, env, declared(scopes, name, false)),
{
    lemma_models_declared(frames, env, scopes, name, false);
}

/// A new frame inside the frame `env` mirrors the stack with one more
/// scope, where it binds what that scope defines.
pub proof fn lemma_models_pushed(
    frames: Seq<EnvironmentView>,
    env: usize,
    scopes: Seq<Scope>,
    frame: usize,
    scope: Scope,
)
    requires
        models(frames, env, scopes),
        env < frame < frames.len(),
        frames[frame as int].enclosing == Some(env),
        forall|name: Seq<char>|
            defines(scope, name) ==> #[trigger] frames[frame as int].values.contains_key(name),
    ensures
        models(frames, frame, scopes.push(scope)),
{
    assert(scopes.push(scope).drop_last() =~= scopes);
}

} // verus!
