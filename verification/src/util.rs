//! Access to the global states, and the conditions that systems run under.

use vstd::prelude::*;
use vstd::std_specs::cmp::PartialEqSpec;
use crate::data::StateData;
use crate::graph::StateId;
use crate::state::State;
use crate::world::{Entity, World, WorldView};

verus! {

impl<S: State> WorldView<S> {
    /// Whether the entity at position `at` carries the marker of the global
    /// states and owns a record of `kind`.
    pub open spec fn global_state_at(self, kind: StateId, at: int) -> bool {
        self.global_at(at) && self.entities[at].slot(kind) is Some
    }

    /// Whether `entity` is the one entity that carries the marker of the
    /// global states and owns a record of `kind`.
    pub open spec fn sole_global_state(self, kind: StateId, entity: Entity) -> bool {
        &&& self.global_state_at(kind, entity.0 as int)
        &&& forall|at: int| #[trigger] self.global_state_at(kind, at) ==> at == entity.0
    }

    /// Whether exactly one entity carries the marker of the global states
    /// and owns a record of `kind`.
    pub open spec fn has_global_state(self, kind: StateId) -> bool {
        exists|entity: Entity| self.sole_global_state(kind, entity)
    }

    /// The global state of `kind`: the record of `kind` on the one entity
    /// that carries the marker of the global states and owns such a record.
    pub open spec fn global_state(self, kind: StateId) -> StateData<S>
        recommends
            self.has_global_state(kind),
    {
        self.slot(kind, choose|entity: Entity| self.sole_global_state(kind, entity)).unwrap()
    }
}

/// The one entity is the chosen one.
proof fn lemma_sole_global_state<S: State>(world: WorldView<S>, kind: StateId, entity: Entity)
    requires
        world.sole_global_state(kind, entity),
    ensures
        world.has_global_state(kind),
        world.global_state(kind) == world.slot(kind, entity).unwrap(),
{
    let chosen = choose|chosen: Entity| world.sole_global_state(kind, chosen);
    assert(world.global_state_at(kind, chosen.0 as int));
    assert(chosen.0 == entity.0);
}

/// The entity that carries the marker of the global states and owns a record
/// of `kind`, if there is exactly one.
fn find_global_state<S: State>(world: &World<S>, kind: StateId) -> (found: Option<Entity>)
    ensures
        found is Some <==> world@.has_global_state(kind),
        found is Some ==> world@.sole_global_state(kind, found.unwrap()),
{
    let mut found: Option<Entity> = None;
    let mut e: usize = 0;
    while e < world.entities.len()
        invariant
            e <= world.entities@.len(),
            match found {
                Some(entity) => entity.0 < e && world@.global_state_at(kind, entity.0 as int)
                    && forall|at: int|
                    at < e && #[trigger] world@.global_state_at(kind, at) ==> at == entity.0,
                None => forall|at: int| at < e ==> !#[trigger] world@.global_state_at(kind, at),
            },
        decreases world.entities@.len() - e,
    {
        let row = &world.entities[e];
        let matches = row.global && kind.0 < row.states.len() && row.states[kind.0].is_some();
        proof {
            assert(matches == world@.global_state_at(kind, e as int));
        }
        if matches {
            match found {
                Some(first) => {
                    proof {
                        assert forall|entity: Entity| !world@.sole_global_state(kind, entity) by {
                            if world@.sole_global_state(kind, entity) {
                                assert(world@.global_state_at(kind, first.0 as int));
                                assert(world@.global_state_at(kind, e as int));
                            }
                        }
                    }
                    return None;
                },
                None => {
                    found = Some(Entity(e));
                },
            }
        }
        e += 1;
    }
    proof {
        match found {
            Some(entity) => {
                lemma_sole_global_state(world@, kind, entity);
            },
            None => {
                assert forall|entity: Entity| !world@.sole_global_state(kind, entity) by {
                    if world@.sole_global_state(kind, entity) {
                        assert(world@.global_state_at(kind, entity.0 as int));
                    }
                }
            },
        }
    }
    found
}

/// Read access to the global state of one state type.
pub struct GlobalState<'w, S: State> {
    world: &'w World<S>,
    kind: StateId,
}

impl<'w, S: State> GlobalState<'w, S> {
    /// The world that is looked into.
    pub closed spec fn world(&self) -> WorldView<S> {
        self.world@
    }

    /// The state type that is looked for.
    pub closed spec fn kind(&self) -> StateId {
        self.kind
    }

    /// Access to the global state of `kind` in `world`.
    pub fn new(world: &'w World<S>, kind: StateId) -> (state: Self)
        ensures
            state.world() == world@,
            state.kind() == kind,
    {
        GlobalState { world, kind }
    }

    /// The global state, which must exist.
    pub fn get(&self) -> (data: &StateData<S>)
        requires
            self.world().has_global_state(self.kind()),
        ensures
            *data == self.world().global_state(self.kind()),
    {
        let found = find_global_state(self.world, self.kind);
        let entity = found.unwrap();
        proof {
            lemma_sole_global_state(self.world@, self.kind, entity);
        }
        self.world.entities[entity.0].states[self.kind.0].as_ref().unwrap()
    }

    /// The global state, if exactly one entity owns one.
    pub fn try_get(&self) -> (data: Option<&StateData<S>>)
        ensures
            data is Some <==> self.world().has_global_state(self.kind()),
            data is Some ==> *data.unwrap() == self.world().global_state(self.kind()),
    {
        match find_global_state(self.world, self.kind) {
            Some(entity) => {
                proof {
                    lemma_sole_global_state(self.world@, self.kind, entity);
                }
                self.world.entities[entity.0].states[self.kind.0].as_ref()
            },
            None => None,
        }
    }
}

/// Read and write access to the global state of one state type.
pub struct GlobalStateMut<'w, S: State> {
    world: &'w mut World<S>,
    kind: StateId,
}

impl<'w, S: State> GlobalStateMut<'w, S> {
    /// The world that is looked into.
    pub closed spec fn world(&self) -> WorldView<S> {
        self.world@
    }

    /// The state type that is looked for.
    pub closed spec fn kind(&self) -> StateId {
        self.kind
    }

    /// Access to the global state of `kind` in `world`.
    pub fn new(world: &'w mut World<S>, kind: StateId) -> (state: Self)
        ensures
            state.world() == old(world)@,
            state.kind() == kind,
    {
        GlobalStateMut { world, kind }
    }

    /// The global state, which must exist.
    pub fn get(&self) -> (data: &StateData<S>)
        requires
            self.world().has_global_state(self.kind()),
        ensures
            *data == self.world().global_state(self.kind()),
    {
        let found = find_global_state(&*self.world, self.kind);
        let entity = found.unwrap();
        proof {
            lemma_sole_global_state(self.world@, self.kind, entity);
        }
        self.world.entities[entity.0].states[self.kind.0].as_ref().unwrap()
    }

    /// The global state, if exactly one entity owns one.
    pub fn try_get(&self) -> (data: Option<&StateData<S>>)
        ensures
            data is Some <==> self.world().has_global_state(self.kind()),
            data is Some ==> *data.unwrap() == self.world().global_state(self.kind()),
    {
        match find_global_state(&*self.world, self.kind) {
            Some(entity) => {
                proof {
                    lemma_sole_global_state(self.world@, self.kind, entity);
                }
                self.world.entities[entity.0].states[self.kind.0].as_ref()
            },
            None => None,
        }
    }

    /// The global state, which must exist, for writing: whatever is made of
    /// it takes its place in the world, and nothing else changes.
    pub fn get_mut(&mut self) -> (data: &mut StateData<S>)
        requires
            old(self).world().has_global_state(old(self).kind()),
        ensures
            *data == old(self).world().global_state(old(self).kind()),
            final(self).kind() == old(self).kind(),
            old(self).world().with_global_state(old(self).kind(), *final(data), final(self).world()),
    {
        let found = find_global_state(&*self.world, self.kind);
        let entity = found.unwrap();
        proof {
            lemma_sole_global_state(self.world@, self.kind, entity);
        }
        match &mut self.world.entities[entity.0].states[self.kind.0] {
            Some(data) => data,
            None => vstd::pervasive::unreached(),
        }
    }

    /// The global state for writing, if exactly one entity owns one.
    pub fn try_get_mut(&mut self) -> (data: Option<&mut StateData<S>>)
        ensures
            final(self).kind() == old(self).kind(),
            data is Some <==> old(self).world().has_global_state(old(self).kind()),
            match data {
                Some(data) => {
                    &&& *data == old(self).world().global_state(old(self).kind())
                    &&& old(self).world().with_global_state(
                        old(self).kind(),
                        *final(data),
                        final(self).world(),
                    )
                },
                None => final(self).world() == old(self).world(),
            },
    {
        match find_global_state(&*self.world, self.kind) {
            Some(entity) => {
                proof {
                    lemma_sole_global_state(self.world@, self.kind, entity);
                }
                match &mut self.world.entities[entity.0].states[self.kind.0] {
                    Some(data) => Some(data),
                    None => vstd::pervasive::unreached(),
                }
            },
            None => None,
        }
    }
}

impl<S: State> WorldView<S> {
    /// Whether `after` is this world with `data` in the place of its global
    /// state of `kind` and nothing else changed.
    pub open spec fn with_global_state(self, kind: StateId, data: StateData<S>, after: Self) -> bool {
        let owner = choose|entity: Entity| self.sole_global_state(kind, entity);
        &&& self.same_but(owner, after)
        &&& self.entities[owner.0 as int].same_but(kind, after.entities[owner.0 as int])
        &&& after.slot(kind, owner) == Some(data)
    }
}

/// Whether `value` is found equal to `target`, where `found` is what the
/// comparison of two values came to, if there were two to compare.
pub open spec fn matches_target<S: State>(value: Option<S>, target: Option<S>, found: bool) -> bool {
    match (value, target) {
        (None, None) => found,
        (Some(value), Some(target)) => S::obeys_eq_spec() ==> found == value.eq_spec(&target),
        _ => !found,
    }
}

/// Whether the global state that `state` gives access to is set to `target`.
fn is_in_state<S: State>(state: &GlobalState<'_, S>, target: &Option<S>) -> (holds: bool)
    requires
        state.world().has_global_state(state.kind()),
    ensures
        matches_target(state.world().global_state(state.kind()).current_value(), *target, holds),
{
    match (state.get().current(), target.as_ref()) {
        (Some(value), Some(target)) => *value == *target,
        (None, None) => true,
        _ => false,
    }
}

/// Run condition.
/// Returns true if global state is set to the specified target.
///
/// The condition can be asked of a global state that exists.
pub fn in_state<S: State>(target: Option<S>) -> (condition: impl Fn(GlobalState<'_, S>) -> bool)
    ensures
        forall|state: GlobalState<'_, S>|
            state.world().has_global_state(state.kind()) ==> call_requires(condition, (state,)),
        forall|state: GlobalState<'_, S>, holds: bool|
            call_ensures(condition, (state,), holds) ==> matches_target(
                state.world().global_state(state.kind()).current_value(),
                target,
                holds,
            ),
{
    move |state: GlobalState<'_, S>| -> (holds: bool)
        requires
            state.world().has_global_state(state.kind()),
        ensures
            matches_target(state.world().global_state(state.kind()).current_value(), target, holds),
        { is_in_state(&state, &target) }
}

/// Run condition.
/// Returns true if global state changed.
pub fn state_changed<S: State>(state: GlobalState<'_, S>) -> (changed: bool)
    requires
        state.world().has_global_state(state.kind()),
    ensures
        changed == state.world().global_state(state.kind()).is_updated(),
{
    state.get().is_updated()
}

/// Run condition.
/// Returns true if global state changed to the specified target.
///
/// The condition can be asked of a global state that exists.
pub fn state_changed_to<S: State>(target: Option<S>) -> (condition: impl Fn(GlobalState<'_, S>) -> bool)
    ensures
        forall|state: GlobalState<'_, S>|
            state.world().has_global_state(state.kind()) ==> call_requires(condition, (state,)),
        forall|state: GlobalState<'_, S>, holds: bool|
            call_ensures(condition, (state,), holds) ==> {
                let data = state.world().global_state(state.kind());
                if data.is_updated() {
                    matches_target(data.current_value(), target, holds)
                } else {
                    !holds
                }
            },
{
    move |state: GlobalState<'_, S>| -> (holds: bool)
        requires
            state.world().has_global_state(state.kind()),
        ensures
            ({
                let data = state.world().global_state(state.kind());
                if data.is_updated() {
                    matches_target(data.current_value(), target, holds)
                } else {
                    !holds
                }
            }),
        { state.get().is_updated() && is_in_state(&state, &target) }
}

} // verus!
