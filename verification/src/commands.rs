//! The operations that an application drives its states with.

use vstd::prelude::*;
use crate::data;
use crate::data::{GlobalStateMarker, StateData, StateUpdate};
use crate::error::StateError;
use crate::graph::{StateGraph, StateId};
use crate::state;
use crate::world;
use crate::state::State;
use crate::transitions::StateTransitionsConfig;
use crate::world::{Entity, EntityData, EntityView, QuerySingleError, World, WorldView};

verus! {

/// Whether `record` is fresh from initialization: it holds `initial`, knows of
/// no earlier value and of no reentry, has the target that its type starts
/// with, and counts as updated unless that was suppressed.
pub open spec fn is_fresh<S: State>(
    record: StateData<S>,
    initial: Option<S>,
    suppress_initial_update: bool,
) -> bool {
    &&& !record.is_reentrant()
    &&& record.previous_value() is None
    &&& record.current_value() == initial
    &&& data::is_default_target(*record.target())
    &&& record.is_updated() == !suppress_initial_update
}

/// Whether `after` is the entity `before` with a state of `kind` initialized
/// on it: it has a fresh record of `kind`, and a fresh record, disabled and
/// not updated, of every state type that `kind` cannot do without and that
/// the entity had no record of. Nothing else changes.
pub open spec fn entity_initialized<S: State>(
    before: EntityView<S>,
    graph: StateGraph,
    kind: StateId,
    initial: Option<S>,
    suppress_initial_update: bool,
    after: EntityView<S>,
) -> bool {
    &&& after.global == before.global
    &&& after.registered == before.registered
    &&& after.states.len() == before.states.len()
    &&& forall|other: StateId| #[trigger]
        graph.declares(other) ==> if other == kind {
            after.slot(other) is Some && is_fresh(
                after.slot(other)->0,
                initial,
                suppress_initial_update,
            )
        } else if graph.requires_state(kind, other) && before.slot(other) is None {
            after.slot(other) is Some && is_fresh(after.slot(other)->0, None, true)
        } else {
            after.slot(other) == before.slot(other)
        }
}

impl<S: State> WorldView<S> {
    /// The entity that owns the states of `local`: the entity itself, or for
    /// none the one entity that carries the marker of the global states.
    pub open spec fn owner(self, local: Option<Entity>) -> Option<Entity> {
        match local {
            Some(entity) => if self.has_entity(entity) {
                Some(entity)
            } else {
                None
            },
            None => match self.global_entity() {
                Ok(entity) => Some(entity),
                Err(_) => None,
            },
        }
    }

    /// The world in which the states of `local` have an owner if the world
    /// can give them one: where the global states have no owner yet, an
    /// entity with their marker is spawned.
    pub open spec fn with_owner(self, local: Option<Entity>) -> Self {
        if local is None && self.no_global() {
            self.spawned(EntityView::bare(true, None, self.graph.count()))
        } else {
            self
        }
    }

    /// Whether `after` is this world with nothing changed but the entity
    /// `entity`.
    pub open spec fn same_but(self, entity: Entity, after: Self) -> bool {
        &&& after.graph == self.graph
        &&& after.schedule == self.schedule
        &&& after.entities.len() == self.entities.len()
        &&& forall|at: int|
            0 <= at < self.entities.len() && at != entity.0 ==> #[trigger] after.entities[at]
                == self.entities[at]
    }
}

/// What comes of the request to initialize a state of `kind` for `local`.
pub open spec fn initialization<S: State>(
    world: WorldView<S>,
    kind: StateId,
    local: Option<Entity>,
) -> Result<(), StateError> {
    if !world.graph.declares(kind) {
        Err(StateError::UnknownState)
    } else if local is None && world.many_globals() {
        Err(StateError::MultipleGlobalMarkers)
    } else if local is Some && !world.has_entity(local.unwrap()) {
        Err(StateError::UnknownEntity)
    } else if world.with_owner(local).slot(kind, world.with_owner(local).owner(local).unwrap())
        is Some {
        Err(StateError::AlreadyInitialized)
    } else {
        Ok(())
    }
}

/// Whether `after` is the world `before` once the request to initialize a
/// state of `kind` for `local` has come to `applied`.
pub open spec fn initialized<S: State>(
    before: WorldView<S>,
    kind: StateId,
    local: Option<Entity>,
    initial: Option<S>,
    suppress_initial_update: bool,
    applied: Result<(), StateError>,
    after: WorldView<S>,
) -> bool {
    match applied {
        Ok(()) => {
            let based = before.with_owner(local);
            let owner = based.owner(local).unwrap();
            &&& based.owner(local) is Some
            &&& based.same_but(owner, after)
            &&& entity_initialized(
                based.entities[owner.0 as int],
                based.graph,
                kind,
                initial,
                suppress_initial_update,
                after.entities[owner.0 as int],
            )
        },
        Err(StateError::AlreadyInitialized) => after == before.with_owner(local),
        Err(_) => after == before,
    }
}

/// What comes of the request to stage a target on the state of `kind` of
/// `local`.
pub open spec fn targeting<S: State>(
    world: WorldView<S>,
    kind: StateId,
    local: Option<Entity>,
) -> Result<(), StateError> {
    if !world.graph.declares(kind) {
        Err(StateError::UnknownState)
    } else if local is None && world.many_globals() {
        Err(StateError::MultipleGlobalMarkers)
    } else if world.owner(local) is None || world.slot(kind, world.owner(local).unwrap()) is None {
        Err(StateError::MissingRecord)
    } else {
        Ok(())
    }
}

/// Whether `after` is the world `before` once the request to stage `target`
/// on the state of `kind` of `local` has come to `applied`.
pub open spec fn targeted<S: State<Target = StateUpdate<S>>>(
    before: WorldView<S>,
    kind: StateId,
    local: Option<Entity>,
    target: Option<S>,
    applied: Result<(), StateError>,
    after: WorldView<S>,
) -> bool {
    match applied {
        Ok(()) => {
            let owner = before.owner(local).unwrap();
            &&& before.same_but(owner, after)
            &&& before.entities[owner.0 as int].same_but(kind, after.entities[owner.0 as int])
            &&& after.slot(kind, owner) == Some(
                before.slot(kind, owner).unwrap().with_target(request(target)),
            )
        },
        Err(_) => after == before,
    }
}

/// Whether `after` is the entity `before` with a fresh record, disabled and
/// not updated, of every state type that `kind` cannot do without and that
/// the entity had no record of. Nothing else changes.
pub open spec fn entity_completed<S: State>(
    before: EntityView<S>,
    graph: StateGraph,
    kind: StateId,
    after: EntityView<S>,
) -> bool {
    &&& after.global == before.global
    &&& after.registered == before.registered
    &&& after.states.len() == before.states.len()
    &&& forall|other: StateId| #[trigger]
        graph.declares(other) ==> if other != kind && graph.requires_state(kind, other)
            && before.slot(other) is None {
            after.slot(other) is Some && is_fresh(after.slot(other)->0, None, true)
        } else {
            after.slot(other) == before.slot(other)
        }
}

/// Registers all elements as required components: gives the entity a default
/// record of every state type that `kind` cannot do without and that the
/// entity has no record of.
pub(crate) fn register_required_components<S: State>(
    row: &mut EntityData<S>,
    graph: &StateGraph,
    kind: StateId,
)
    requires
        graph.wf(),
        graph.declares(kind),
        old(row)@.states.len() == graph.count(),
    ensures
        entity_completed(old(row)@, *graph, kind, final(row)@),
{
    let required = graph.required_states(kind);
    let ghost before = row@;
    let mut next: usize = 0;
    while next < kind.0
        invariant
            next <= kind.0,
            required@.len() == kind.0 + 1,
            row@.global == before.global,
            row@.registered == before.registered,
            row@.states.len() == before.states.len(),
            kind.0 < before.states.len(),
            forall|other: StateId|
                other.0 < next && #[trigger] required@[other.0 as int] && before.slot(other) is None
                    ==> row@.slot(other) is Some && is_fresh(row@.slot(other)->0, None, true),
            forall|other: StateId|
                !(other.0 < next && required@[other.0 as int] && before.slot(other) is None)
                    ==> #[trigger] row@.slot(other) == before.slot(other),
        decreases kind.0 - next,
    {
        let ghost prior = row@;
        if required[next] && row.states[next].is_none() {
            row.states[next] = Some(StateData::default());
        }
        proof {
            assert forall|other: StateId|
                other.0 < next + 1 && #[trigger] required@[other.0 as int] && before.slot(
                    other,
                ) is None implies row@.slot(other) is Some && is_fresh(
                row@.slot(other)->0,
                None,
                true,
            ) by {
                if other.0 < next {
                    assert(row@.slot(other) == prior.slot(other));
                } else {
                    assert(prior.slot(other) == before.slot(other));
                }
            }
            assert forall|other: StateId|
                !(other.0 < next + 1 && required@[other.0 as int] && before.slot(other) is None)
                implies #[trigger] row@.slot(other) == before.slot(other) by {
                assert(prior.slot(other) == before.slot(other));
            }
        }
        next += 1;
    }
    proof {
        assert forall|other: StateId| #[trigger] graph.declares(other) implies if other != kind
            && graph.requires_state(kind, other) && before.slot(other) is None {
            row@.slot(other) is Some && is_fresh(row@.slot(other)->0, None, true)
        } else {
            row@.slot(other) == before.slot(other)
        } by {
            if other.0 < kind.0 {
                assert(required@[other.0 as int] == graph.requires_state(kind, other));
            } else if other != kind {
                assert(!graph.requires_state(kind, other));
            }
        }
    }
}

/// The request to give an owner a record of a state.
pub struct InitializeStateCommand<S: State> {
    pub kind: StateId,
    pub local: Option<Entity>,
    pub initial: Option<S>,
    pub suppress_initial_update: bool,
}

impl<S: State> InitializeStateCommand<S> {
    /// The request to initialize the state of `kind` for `local` with `initial`.
    pub fn new(
        kind: StateId,
        local: Option<Entity>,
        initial: Option<S>,
        suppress_initial_update: bool,
    ) -> (command: Self)
        ensures
            command.kind == kind,
            command.local == local,
            command.initial == initial,
            command.suppress_initial_update == suppress_initial_update,
    {
        Self { kind, local, initial, suppress_initial_update }
    }

    /// Gives the owner a record of the state, and a disabled record of every
    /// state that it cannot do without and that the owner has no record of.
    ///
    /// The states of no entity in particular go to the entity that carries
    /// the marker of the global states, which is spawned if there is none.
    /// Nothing changes where the state type is not declared, the entity was
    /// not spawned, or more than one entity carries the marker of the global
    /// states. Where the owner has a record of the state already, that record
    /// is kept.
    pub fn apply(self, world: &mut World<S>) -> (applied: Result<(), StateError>)
        requires
            old(world)@.wf(),
        ensures
            final(world)@.wf(),
            applied == initialization(old(world)@, self.kind, self.local),
            initialized(
                old(world)@,
                self.kind,
                self.local,
                self.initial,
                self.suppress_initial_update,
                applied,
                final(world)@,
            ),
    {
        let InitializeStateCommand { kind, local, initial, suppress_initial_update } = self;
        if !world.graph.contains(kind) {
            return Err(StateError::UnknownState);
        }
        let entity = match local {
            Some(entity) => {
                if entity.0 >= world.entities.len() {
                    return Err(StateError::UnknownEntity);
                }
                entity
            },
            None => {
                match world.single_global() {
                    Ok(entity) => {
                        proof {
                            world::lemma_sole_global(world@, entity);
                        }
                        entity
                    },
                    Err(QuerySingleError::NoEntities) => {
                        let entity = world.spawn(GlobalStateMarker);
                        proof {
                            lemma_spawned_global_is_owner(old(world)@);
                        }
                        entity
                    },
                    Err(QuerySingleError::MultipleEntities) => {
                        return Err(StateError::MultipleGlobalMarkers);
                    },
                }
            },
        };
        let ghost based = world@;
        proof {
            assert(based == old(world)@.with_owner(local));
            assert(based.owner(local) == Some(entity));
        }
        if world.entities[entity.0].states[kind.0].is_some() {
            return Err(StateError::AlreadyInitialized);
        }
        let row = &mut world.entities[entity.0];
        let ghost before = row@;
        row.states[kind.0] = Some(StateData::new(initial, suppress_initial_update));
        let ghost with_record = row@;
        register_required_components(row, &world.graph, kind);
        proof {
            let graph = old(world)@.graph;
            assert forall|other: StateId| #[trigger] graph.declares(other) implies if other == kind {
                row@.slot(other) is Some && is_fresh(
                    row@.slot(other)->0,
                    initial,
                    suppress_initial_update,
                )
            } else if graph.requires_state(kind, other) && before.slot(other) is None {
                row@.slot(other) is Some && is_fresh(row@.slot(other)->0, None, true)
            } else {
                row@.slot(other) == before.slot(other)
            } by {
                assert(with_record.slot(kind) == row@.slot(kind));
                if other != kind {
                    assert(with_record.slot(other) == before.slot(other));
                }
            }
        }
        proof {
            assert(based.same_but(entity, world@));
            lemma_initialized_is_wf(based, entity, world@);
        }
        Ok(())
    }
}

/// The request to stage a target on a state that is driven by overwriting
/// its target.
#[verifier::reject_recursive_types(S)]
pub struct SetStateTargetCommand<S: State<Target = StateUpdate<S>>> {
    pub kind: StateId,
    pub local: Option<Entity>,
    pub target: Option<S>,
}

/// The target that asks for `value`: to enable the state with a value, or to
/// disable it.
pub open spec fn request<S>(value: Option<S>) -> StateUpdate<S> {
    match value {
        Some(value) => StateUpdate::Enable(value),
        None => StateUpdate::Disable,
    }
}

impl<S: State<Target = StateUpdate<S>>> SetStateTargetCommand<S> {
    /// The request to stage `target` on the state of `kind` of `local`.
    pub fn new(kind: StateId, local: Option<Entity>, target: Option<S>) -> (command: Self)
        ensures
            command.kind == kind,
            command.local == local,
            command.target == target,
    {
        Self { kind, local, target }
    }

    /// Stages the target on the record of the state that the owner has,
    /// in place of whatever was staged there: the next transition consumes it.
    ///
    /// Nothing changes where the state type is not declared, more than one
    /// entity carries the marker of the global states, or the owner has no
    /// record of the state.
    pub fn apply(self, world: &mut World<S>) -> (applied: Result<(), StateError>)
        requires
            old(world)@.wf(),
        ensures
            final(world)@.wf(),
            applied == targeting(old(world)@, self.kind, self.local),
            targeted(old(world)@, self.kind, self.local, self.target, applied, final(world)@),
    {
        let SetStateTargetCommand { kind, local, target } = self;
        if !world.graph.contains(kind) {
            return Err(StateError::UnknownState);
        }
        let entity = match local {
            Some(entity) => {
                if entity.0 >= world.entities.len() {
                    return Err(StateError::MissingRecord);
                }
                entity
            },
            None => {
                match world.single_global() {
                    Ok(entity) => {
                        proof {
                            world::lemma_sole_global(world@, entity);
                        }
                        entity
                    },
                    Err(QuerySingleError::NoEntities) => {
                        return Err(StateError::MissingRecord);
                    },
                    Err(QuerySingleError::MultipleEntities) => {
                        return Err(StateError::MultipleGlobalMarkers);
                    },
                }
            },
        };
        assert(world@.owner(local) == Some(entity));
        if world.entities[entity.0].states[kind.0].is_none() {
            return Err(StateError::MissingRecord);
        }
        let row = &mut world.entities[entity.0];
        let ghost before = row@;
        match &mut row.states[kind.0] {
            Some(state) => {
                state.target = match target {
                    Some(value) => StateUpdate::Enable(value),
                    None => StateUpdate::Disable,
                };
            },
            None => {},
        }
        proof {
            assert(before.same_but(kind, row@));
            assert(old(world)@.same_but(entity, world@));
            lemma_initialized_is_wf(old(world)@, entity, world@);
        }
        Ok(())
    }
}

/// The entity spawned for the global states, where they had no owner, owns
/// them.
proof fn lemma_spawned_global_is_owner<S: State>(world: WorldView<S>)
    requires
        world.no_global(),
        world.entities.len() <= usize::MAX,
    ensures
        world.with_owner(None).owner(None) == Some(Entity(world.entities.len() as usize)),
{
    let after = world.with_owner(None);
    let spawned = Entity(world.entities.len() as usize);
    assert(after.global_at(spawned.0 as int));
    assert forall|at: int| #[trigger] after.global_at(at) implies at == spawned.0 by {
        if at != spawned.0 {
            assert(world.global_at(at));
        }
    }
    assert(after.sole_global(spawned));
    world::lemma_sole_global(after, spawned);
}

/// A change to the records of one entity keeps a well-formed world well
/// formed.
proof fn lemma_initialized_is_wf<S: State>(
    before: WorldView<S>,
    entity: Entity,
    after: WorldView<S>,
)
    requires
        before.wf(),
        before.has_entity(entity),
        before.same_but(entity, after),
        after.entities[entity.0 as int].global == before.entities[entity.0 as int].global,
        after.entities[entity.0 as int].registered == before.entities[entity.0 as int].registered,
        after.entities[entity.0 as int].states.len() == before.entities[entity.0 as int].states.len(),
    ensures
        after.wf(),
{
    assert forall|at: int| #![auto] 0 <= at < before.entities.len() implies after.entities[at].registered
        == before.entities[at].registered && after.entities[at].states.len()
        == before.entities[at].states.len() by {
        if at != entity.0 {
            assert(after.entities[at] == before.entities[at]);
        }
    }
    assert forall|i: int| 0 <= i < after.schedule.updates.len() implies !after.unregistered(
        (#[trigger] after.schedule.updates[i]).state,
    ) by {
        let scheduled = after.schedule.updates[i].state;
        assert(!before.unregistered(scheduled));
        let marker = choose|marker: int| before.marked_at(marker, scheduled);
        assert(after.marked_at(marker, scheduled));
    }
}

/// The operations that drive the states of a store.
pub trait StatesExt<S: State> {
    /// What the store holds.
    spec fn states(&self) -> WorldView<S>;

    /// Registers machinery for this state as well as all dependencies.
    ///
    /// It is an error to register a state type that is not declared, that is
    /// registered already, or that more than one entity marks as registered;
    /// what the state type cannot do without is registered all the same.
    fn register_state(&mut self, kind: StateId, config: StateTransitionsConfig) -> (registered: Result<
        (),
        StateError,
    >)
        requires
            old(self).states().wf(),
        ensures
            final(self).states().wf(),
            registered == state::registration(old(self).states(), kind, false),
            final(self).states() == if old(self).states().graph.declares(kind) {
                old(self).states().with_state(kind, config@)
            } else {
                old(self).states()
            },
    ;

    /// Adds the state to the provided `local` entity or otherwise the global state.
    /// If initial update is suppresed, no initial transitions will be generated.
    /// This also adds all dependencies, each disabled, where the owner lacks them.
    fn init_state(
        &mut self,
        kind: StateId,
        local: Option<Entity>,
        initial: Option<S>,
        suppress_initial_update: bool,
    ) -> (applied: Result<(), StateError>)
        requires
            old(self).states().wf(),
        ensures
            final(self).states().wf(),
            applied == initialization(old(self).states(), kind, local),
            initialized(
                old(self).states(),
                kind,
                local,
                initial,
                suppress_initial_update,
                applied,
                final(self).states(),
            ),
    ;

    /// Sets the target value of the state, which will result in a call of
    /// [`State::update`] during the next transition.
    /// Much like [`StatesExt::init_state`] you need to provide a local entity or nothing, for global state.
    ///
    /// This only works with the [`StateUpdate`] target.
    fn state_target(&mut self, kind: StateId, local: Option<Entity>, target: Option<S>) -> (applied:
        Result<(), StateError>) where S: State<Target = StateUpdate<S>>
        requires
            old(self).states().wf(),
        ensures
            final(self).states().wf(),
            applied == targeting(old(self).states(), kind, local),
            targeted(old(self).states(), kind, local, target, applied, final(self).states()),
    ;
}

impl<S: State> StatesExt<S> for World<S> {
    open(crate) spec fn states(&self) -> WorldView<S> {
        self@
    }

    fn register_state(&mut self, kind: StateId, config: StateTransitionsConfig) -> (registered: Result<
        (),
        StateError,
    >) {
        state::register_state(self, kind, config, false)
    }

    fn init_state(
        &mut self,
        kind: StateId,
        local: Option<Entity>,
        initial: Option<S>,
        suppress_initial_update: bool,
    ) -> (applied: Result<(), StateError>) {
        InitializeStateCommand::new(kind, local, initial, suppress_initial_update).apply(self)
    }

    fn state_target(&mut self, kind: StateId, local: Option<Entity>, target: Option<S>) -> (applied:
        Result<(), StateError>) where S: State<Target = StateUpdate<S>> {
        SetStateTargetCommand::new(kind, local, target).apply(self)
    }
}

} // verus!
