//! The store of entities, their markers and their state records.

use vstd::prelude::*;
use crate::data::{GlobalStateMarker, RegisteredState, StateData};
use crate::graph::{StateGraph, StateId};
use crate::schedule::{Schedule, ScheduleView, ScheduledSystem, StateSystem};
use crate::state;
use crate::state::{State, StateSystemSet, StateTransition};
use crate::transitions;
use crate::transitions::Triggered;

verus! {

/// Names an entity of a [`World`]: the position at which it was spawned.
#[derive(Debug, Clone, Copy, PartialEq, Eq, Hash, Structural)]
pub struct Entity(pub usize);

/// Why a query for the one entity with some marker has no answer.
#[derive(Debug, Clone, Copy, PartialEq, Eq, Structural)]
pub enum QuerySingleError {
    /// No entity carries the marker.
    NoEntities,
    /// More than one entity carries the marker.
    MultipleEntities,
}

/// What an entity carries.
pub(crate) struct EntityData<S: State> {
    pub(crate) global: bool,
    pub(crate) registered: Option<StateId>,
    pub(crate) states: Vec<Option<StateData<S>>>,
}

/// What an entity carries: whether it is marked as the owner of the global
/// states, the state type whose registration it marks, if any, and for each
/// state type of the graph the record that the entity owns, if any.
pub struct EntityView<S: State> {
    pub global: bool,
    pub registered: Option<StateId>,
    pub states: Seq<Option<StateData<S>>>,
}

impl<S: State> View for EntityData<S> {
    type V = EntityView<S>;

    open(crate) spec fn view(&self) -> EntityView<S> {
        EntityView { global: self.global, registered: self.registered, states: self.states@ }
    }
}

/// The entities of an application with the records of their states, and the
/// schedule that takes the states through a transition.
pub struct World<S: State> {
    pub(crate) graph: StateGraph,
    pub(crate) entities: Vec<EntityData<S>>,
    pub(crate) schedule: Schedule,
}

/// What a [`World`] holds.
pub struct WorldView<S: State> {
    pub graph: StateGraph,
    pub entities: Seq<EntityView<S>>,
    pub schedule: ScheduleView,
}

impl<S: State> View for World<S> {
    type V = WorldView<S>;

    open(crate) spec fn view(&self) -> WorldView<S> {
        WorldView {
            graph: self.graph,
            entities: Seq::new(self.entities@.len(), |e: int| self.entities@[e]@),
            schedule: self.schedule@,
        }
    }
}

impl<S: State> EntityView<S> {
    /// An entity that carries no record of any of `count` state types.
    pub open spec fn bare(global: bool, registered: Option<StateId>, count: nat) -> Self {
        EntityView { global, registered, states: Seq::new(count, |k: int| None::<StateData<S>>) }
    }

    /// The record of `kind` that the entity owns, if any.
    pub open spec fn slot(self, kind: StateId) -> Option<StateData<S>> {
        if kind.0 < self.states.len() {
            self.states[kind.0 as int]
        } else {
            None
        }
    }

    /// Whether the entity owns a record of `kind` and a record of each of
    /// `dependencies`.
    pub open spec fn complete(self, kind: StateId, dependencies: Seq<StateId>) -> bool {
        &&& self.slot(kind) is Some
        &&& forall|i: int|
            0 <= i < dependencies.len() ==> self.slot(#[trigger] dependencies[i]) is Some
    }

    /// The records of `dependencies` that the entity owns, in their order.
    pub open spec fn shown(self, dependencies: Seq<StateId>) -> Seq<StateData<S>> {
        Seq::new(dependencies.len(), |i: int| self.slot(dependencies[i])->0)
    }

    /// Whether `after` is this entity with nothing changed but, at most, its
    /// record of `kind`.
    pub open spec fn same_but(self, kind: StateId, after: Self) -> bool {
        &&& after.global == self.global
        &&& after.registered == self.registered
        &&& after.states.len() == self.states.len()
        &&& forall|other: StateId| other != kind ==> #[trigger] after.slot(other) == self.slot(other)
        &&& after.slot(kind) is Some <==> self.slot(kind) is Some
    }
}

impl<S: State> WorldView<S> {
    /// Whether `entity` was spawned in this world.
    pub open spec fn has_entity(self, entity: Entity) -> bool {
        entity.0 < self.entities.len()
    }

    /// The record of `kind` that `entity` owns, if any.
    pub open spec fn slot(self, kind: StateId, entity: Entity) -> Option<StateData<S>> {
        if self.has_entity(entity) {
            self.entities[entity.0 as int].slot(kind)
        } else {
            None
        }
    }

    /// Whether `entity` carries the marker of the global states.
    pub open spec fn is_global(self, entity: Entity) -> bool {
        self.global_at(entity.0 as int)
    }

    /// Whether the entity at position `at` marks the registration of `kind`.
    pub open spec fn marked_at(self, at: int, kind: StateId) -> bool {
        0 <= at < self.entities.len() && self.entities[at].registered == Some(kind)
    }

    /// Whether the entity at position `at` carries the marker of the global
    /// states.
    pub open spec fn global_at(self, at: int) -> bool {
        0 <= at < self.entities.len() && self.entities[at].global
    }

    /// Whether `entity` marks the registration of `kind`.
    pub open spec fn marks(self, entity: Entity, kind: StateId) -> bool {
        self.marked_at(entity.0 as int, kind)
    }

    /// Whether no entity marks the registration of `kind`.
    pub open spec fn unregistered(self, kind: StateId) -> bool {
        forall|at: int| !#[trigger] self.marked_at(at, kind)
    }

    /// Whether `entity` is the one entity that marks the registration of `kind`.
    pub open spec fn sole_marker(self, kind: StateId, entity: Entity) -> bool {
        &&& self.marks(entity, kind)
        &&& forall|at: int| #[trigger] self.marked_at(at, kind) ==> at == entity.0
    }

    /// Whether more than one entity marks the registration of `kind`.
    pub open spec fn many_markers(self, kind: StateId) -> bool {
        exists|first: int, second: int|
            first != second && #[trigger] self.marked_at(first, kind) && #[trigger] self.marked_at(
                second,
                kind,
            )
    }

    /// The one entity that marks the registration of `kind`, or why there
    /// is no such entity.
    pub open spec fn registered_entity(self, kind: StateId) -> Result<Entity, QuerySingleError> {
        if self.unregistered(kind) {
            Err(QuerySingleError::NoEntities)
        } else if self.many_markers(kind) {
            Err(QuerySingleError::MultipleEntities)
        } else {
            Ok(choose|entity: Entity| self.sole_marker(kind, entity))
        }
    }

    /// Whether no entity carries the marker of the global states.
    pub open spec fn no_global(self) -> bool {
        forall|at: int| !#[trigger] self.global_at(at)
    }

    /// Whether `entity` is the one entity that carries the marker of the
    /// global states.
    pub open spec fn sole_global(self, entity: Entity) -> bool {
        &&& self.is_global(entity)
        &&& forall|at: int| #[trigger] self.global_at(at) ==> at == entity.0
    }

    /// Whether more than one entity carries the marker of the global states.
    pub open spec fn many_globals(self) -> bool {
        exists|first: int, second: int|
            first != second && #[trigger] self.global_at(first) && #[trigger] self.global_at(second)
    }

    /// The one entity that carries the marker of the global states, or why
    /// there is no such entity.
    pub open spec fn global_entity(self) -> Result<Entity, QuerySingleError> {
        if self.no_global() {
            Err(QuerySingleError::NoEntities)
        } else if self.many_globals() {
            Err(QuerySingleError::MultipleEntities)
        } else {
            Ok(choose|entity: Entity| self.sole_global(entity))
        }
    }

    /// Whether the update system of `kind` is among the first `done` update
    /// systems of the schedule.
    pub open spec fn updated_within(self, kind: StateId, done: int) -> bool {
        exists|i: int|
            0 <= i < done && i < self.schedule.updates.len() && (
            #[trigger] self.schedule.updates[i]).state == kind
    }

    /// Whether the update system of `kind` is scheduled.
    pub open spec fn updates(self, kind: StateId) -> bool {
        exists|i: int| 0 <= i < self.schedule.updates.len() && (#[trigger] self.schedule.updates[i]).state == kind
    }

    /// Whether `systems` holds systems for declared state types only, each
    /// in the set that `set_of` gives for the order of its state type, and
    /// update systems if and only if `updating`.
    pub open spec fn fits(
        self,
        systems: Seq<ScheduledSystem>,
        set_of: spec_fn(u32) -> StateSystemSet,
        updating: bool,
    ) -> bool {
        forall|i: int|
            0 <= i < systems.len() ==> {
                &&& self.graph.declares((#[trigger] systems[i]).state)
                &&& systems[i].set == set_of(self.graph.order_of(systems[i].state))
                &&& (systems[i].system == StateSystem::Update) == updating
            }
    }

    /// The graph is well formed, every entity has a place for a record of
    /// each state type, every phase of the schedule holds its systems in the
    /// order in which they run, and no state type is updated twice or without
    /// being registered.
    pub open spec fn wf(self) -> bool {
        &&& self.graph.wf()
        &&& forall|e: int|
            0 <= e < self.entities.len() ==> (#[trigger] self.entities[e]).states.len()
                == self.graph.count()
        &&& crate::schedule::is_sorted(self.schedule.updates, false)
        &&& crate::schedule::is_sorted(self.schedule.exits, true)
        &&& crate::schedule::is_sorted(self.schedule.enters, false)
        &&& self.fits(self.schedule.updates, |order: u32| StateSystemSet::Update(order), true)
        &&& self.fits(self.schedule.exits, |order: u32| StateSystemSet::Exit(order), false)
        &&& self.fits(self.schedule.enters, |order: u32| StateSystemSet::Enter(order), false)
        &&& forall|i: int, j: int|
            0 <= i < j < self.schedule.updates.len() ==> (#[trigger] self.schedule.updates[i]).state
                != (#[trigger] self.schedule.updates[j]).state
        &&& forall|i: int|
            0 <= i < self.schedule.updates.len() ==> !self.unregistered(
                (#[trigger] self.schedule.updates[i]).state,
            )
    }

    /// The world with one more entity.
    pub open spec fn spawned(self, entity: EntityView<S>) -> Self {
        WorldView { entities: self.entities.push(entity), ..self }
    }
}

impl<S: State> World<S> {
    /// A world without entities and without systems, for the states of `graph`.
    pub fn new(graph: StateGraph) -> (world: Self)
        requires
            graph.wf(),
        ensures
            world@.wf(),
            world@.graph == graph,
            world@.entities.len() == 0,
            world@.schedule.updates.len() == 0,
            world@.schedule.exits.len() == 0,
            world@.schedule.enters.len() == 0,
    {
        World { graph, entities: Vec::new(), schedule: Schedule::new() }
    }

    /// The graph of the state types of this world.
    pub fn graph(&self) -> (graph: &StateGraph)
        ensures
            *graph == self@.graph,
    {
        &self.graph
    }

    /// The schedule that takes the states of this world through a transition.
    pub fn schedule(&self) -> (schedule: &Schedule)
        ensures
            schedule@ == self@.schedule,
    {
        &self.schedule
    }

    /// How many entities were spawned in this world.
    pub fn len(&self) -> (len: usize)
        ensures
            len == self@.entities.len(),
    {
        self.entities.len()
    }

    /// Whether `entity` carries the marker of the global states.
    pub fn is_global(&self, entity: Entity) -> (global: bool)
        ensures
            global == self@.is_global(entity),
    {
        entity.0 < self.entities.len() && self.entities[entity.0].global
    }

    /// Spawns an entity that carries `global` and `registered` and no record.
    pub(crate) fn spawn_bare(&mut self, global: bool, registered: Option<StateId>) -> (entity: Entity)
        requires
            old(self)@.wf(),
        ensures
            final(self)@ == old(self)@.spawned(
                EntityView::bare(global, registered, old(self)@.graph.count()),
            ),
            entity.0 == old(self)@.entities.len(),
            final(self)@.wf(),
    {
        let count = self.graph.len();
        let mut states: Vec<Option<StateData<S>>> = Vec::new();
        while states.len() < count
            invariant
                states@.len() <= count,
                forall|k: int| 0 <= k < states@.len() ==> #[trigger] states@[k] is None,
            decreases count - states@.len(),
        {
            states.push(None);
        }
        let entity = Entity(self.entities.len());
        self.entities.push(EntityData { global, registered, states });
        proof {
            let row = EntityView::<S>::bare(global, registered, old(self)@.graph.count());
            assert(self.entities@.last()@.states =~= row.states);
            assert(self@.entities =~= old(self)@.entities.push(row));
            lemma_spawned_is_wf(old(self)@, row);
        }
        entity
    }

    /// Spawns an entity that carries nothing.
    pub fn spawn_empty(&mut self) -> (entity: Entity)
        requires
            old(self)@.wf(),
        ensures
            final(self)@ == old(self)@.spawned(EntityView::bare(false, None, old(self)@.graph.count())),
            entity.0 == old(self)@.entities.len(),
            final(self)@.wf(),
    {
        self.spawn_bare(false, None)
    }

    /// Spawns an entity that carries the marker of the global states.
    pub fn spawn(&mut self, _marker: GlobalStateMarker) -> (entity: Entity)
        requires
            old(self)@.wf(),
        ensures
            final(self)@ == old(self)@.spawned(EntityView::bare(true, None, old(self)@.graph.count())),
            entity.0 == old(self)@.entities.len(),
            final(self)@.wf(),
    {
        self.spawn_bare(true, None)
    }

    /// Spawns an entity that marks the registration of a state type.
    pub fn spawn_registered(&mut self, marker: RegisteredState) -> (entity: Entity)
        requires
            old(self)@.wf(),
        ensures
            final(self)@ == old(self)@.spawned(
                EntityView::bare(false, Some(marker.state), old(self)@.graph.count()),
            ),
            entity.0 == old(self)@.entities.len(),
            final(self)@.wf(),
    {
        self.spawn_bare(false, Some(marker.state))
    }

    /// The entity that marks the registration of `kind`, if there is exactly
    /// one.
    pub fn single_registered(&self, kind: StateId) -> (found: Result<Entity, QuerySingleError>)
        ensures
            found == self@.registered_entity(kind),
            found is Ok ==> self@.sole_marker(kind, found.unwrap()),
    {
        let mut found: Option<Entity> = None;
        let mut e: usize = 0;
        while e < self.entities.len()
            invariant
                e <= self.entities@.len(),
                match found {
                    Some(entity) => entity.0 < e && self@.marks(entity, kind) && forall|at: int|
                        at < e && #[trigger] self@.marked_at(at, kind) ==> at == entity.0,
                    None => forall|at: int| at < e ==> !#[trigger] self@.marked_at(at, kind),
                },
            decreases self.entities@.len() - e,
        {
            let marks = match self.entities[e].registered {
                Some(marked) => marked.0 == kind.0,
                None => false,
            };
            proof {
                assert(marks == self@.marked_at(e as int, kind));
            }
            if marks {
                match found {
                    Some(first) => {
                        proof {
                            assert(self@.marked_at(first.0 as int, kind) && self@.marked_at(
                                e as int,
                                kind,
                            ));
                        }
                        return Err(QuerySingleError::MultipleEntities);
                    },
                    None => {
                        found = Some(Entity(e));
                    },
                }
            }
            e += 1;
        }
        match found {
            Some(entity) => {
                proof {
                    lemma_sole_marker(self@, kind, entity);
                }
                Ok(entity)
            },
            None => Err(QuerySingleError::NoEntities),
        }
    }

    /// The entity that carries the marker of the global states, if there is
    /// exactly one.
    pub fn single_global(&self) -> (found: Result<Entity, QuerySingleError>)
        ensures
            found == self@.global_entity(),
            found is Ok ==> self@.sole_global(found.unwrap()),
    {
        let mut found: Option<Entity> = None;
        let mut e: usize = 0;
        while e < self.entities.len()
            invariant
                e <= self.entities@.len(),
                match found {
                    Some(entity) => entity.0 < e && self@.is_global(entity) && forall|at: int|
                        at < e && #[trigger] self@.global_at(at) ==> at == entity.0,
                    None => forall|at: int| at < e ==> !#[trigger] self@.global_at(at),
                },
            decreases self.entities@.len() - e,
        {
            let global = self.entities[e].global;
            proof {
                assert(global == self@.global_at(e as int));
            }
            if global {
                match found {
                    Some(first) => {
                        proof {
                            assert(self@.global_at(first.0 as int) && self@.global_at(e as int));
                        }
                        return Err(QuerySingleError::MultipleEntities);
                    },
                    None => {
                        found = Some(Entity(e));
                    },
                }
            }
            e += 1;
        }
        match found {
            Some(entity) => {
                proof {
                    lemma_sole_global(self@, entity);
                }
                Ok(entity)
            },
            None => Err(QuerySingleError::NoEntities),
        }
    }

    /// Takes every registered state through one transition and returns the
    /// events to dispatch, in the order in which they were triggered.
    ///
    /// The transition has three phases. The updates run from root states to
    /// leaf states: a record is evaluated where the entity owns a record of
    /// each dependency, against the records of the dependencies as this
    /// transition leaves them. Then the exits run from leaf states to root
    /// states, then the enters from root states to leaf states; they change
    /// nothing and trigger the events of the records that were updated.
    pub fn run_schedule(&mut self, _label: StateTransition) -> (triggered: Vec<Triggered<S>>)
        requires
            old(self)@.wf(),
        ensures
            final(self)@.wf(),
            state::transitioned(old(self)@, final(self)@),
            final(self)@.announced(final(self)@.firings(), triggered@),
    {
        let count = self.schedule.updates.len();
        let mut i: usize = 0;
        proof {
            state::lemma_update_start(self@);
        }
        while i < count
            invariant
                i <= count,
                count == old(self)@.schedule.updates.len(),
                old(self)@.wf(),
                self@.wf(),
                state::transitioned_within(old(self)@, i as int, self@),
            decreases count - i,
        {
            let kind = self.schedule.updates[i].state;
            let ghost reached = self@;
            state::update_system(self, kind);
            proof {
                state::lemma_update_step(old(self)@, i as int, reached, self@);
            }
            i += 1;
        }
        let mut triggered: Vec<Triggered<S>> = Vec::new();
        transitions::run_transitions(&*self, &self.schedule.exits, &mut triggered);
        let ghost exits = triggered@;
        transitions::run_transitions(&*self, &self.schedule.enters, &mut triggered);
        proof {
            let first = self@.phase_firings(self@.schedule.exits, self@.schedule.exits.len() as int);
            let second = self@.phase_firings(
                self@.schedule.enters,
                self@.schedule.enters.len() as int,
            );
            assert(exits.skip(0) =~= exits);
            assert(triggered@.take(first.len() as int) =~= exits);
            transitions::lemma_announced_in_turn(self@, first, second, triggered@);
        }
        triggered
    }

    /// Takes the record of `kind` away from `entity` and returns it, if the
    /// entity owns one. Nothing else changes: the records of the states that
    /// depend on it stay, and are not updated while it is missing.
    pub fn remove_state(&mut self, kind: StateId, entity: Entity) -> (removed: Option<StateData<S>>)
        requires
            old(self)@.wf(),
        ensures
            final(self)@.wf(),
            removed == old(self)@.slot(kind, entity),
            final(self)@.slot(kind, entity) is None,
            final(self)@.graph == old(self)@.graph,
            final(self)@.schedule == old(self)@.schedule,
            final(self)@.entities.len() == old(self)@.entities.len(),
            forall|at: int|
                0 <= at < old(self)@.entities.len() ==> {
                    &&& (#[trigger] final(self)@.entities[at]).global == old(self)@.entities[at].global
                    &&& final(self)@.entities[at].registered == old(self)@.entities[at].registered
                    &&& final(self)@.entities[at].states.len() == old(self)@.entities[at].states.len()
                },
            forall|other: StateId, owner: Entity|
                other != kind || owner != entity ==> #[trigger] final(self)@.slot(other, owner) == old(
                    self,
                )@.slot(other, owner),
    {
        if entity.0 >= self.entities.len() || kind.0 >= self.entities[entity.0].states.len() {
            return None;
        }
        let mut removed: Option<StateData<S>> = None;
        core::mem::swap(&mut self.entities[entity.0].states[kind.0], &mut removed);
        proof {
            assert forall|at: int| 0 <= at < old(self)@.entities.len() implies {
                &&& (#[trigger] self@.entities[at]).global == old(self)@.entities[at].global
                &&& self@.entities[at].registered == old(self)@.entities[at].registered
                &&& self@.entities[at].states.len() == old(self)@.entities[at].states.len()
            } by {}
            assert forall|i: int| 0 <= i < self@.schedule.updates.len() implies !self@.unregistered(
                (#[trigger] self@.schedule.updates[i]).state,
            ) by {
                let scheduled = self@.schedule.updates[i].state;
                assert(!old(self)@.unregistered(scheduled));
                let marker = choose|marker: int| old(self)@.marked_at(marker, scheduled);
                assert(self@.marked_at(marker, scheduled));
            }
        }
        removed
    }

    /// The record of `kind` that `entity` owns, if any.
    pub fn get(&self, kind: StateId, entity: Entity) -> (data: Option<&StateData<S>>)
        ensures
            match data {
                Some(data) => self@.slot(kind, entity) == Some(*data),
                None => self@.slot(kind, entity) is None,
            },
    {
        if entity.0 < self.entities.len() {
            let row = &self.entities[entity.0];
            if kind.0 < row.states.len() {
                return row.states[kind.0].as_ref();
            }
        }
        None
    }
}

/// The one entity that marks the registration of a state type is the answer
/// to the query for it.
pub proof fn lemma_sole_marker<S: State>(world: WorldView<S>, kind: StateId, entity: Entity)
    requires
        world.sole_marker(kind, entity),
    ensures
        world.registered_entity(kind) == Ok::<Entity, QuerySingleError>(entity),
        !world.unregistered(kind),
        !world.many_markers(kind),
{
    assert(world.marked_at(entity.0 as int, kind));
    if world.many_markers(kind) {
        let (first, second) = choose|first: int, second: int|
            first != second && #[trigger] world.marked_at(first, kind) && #[trigger] world.marked_at(
                second,
                kind,
            );
        assert(first == entity.0 && second == entity.0);
    }
    let chosen = choose|chosen: Entity| world.sole_marker(kind, chosen);
    assert(world.marked_at(chosen.0 as int, kind));
    assert(chosen.0 == entity.0);
}

/// The one entity that carries the marker of the global states is the
/// answer to the query for it.
pub proof fn lemma_sole_global<S: State>(world: WorldView<S>, entity: Entity)
    requires
        world.sole_global(entity),
    ensures
        world.global_entity() == Ok::<Entity, QuerySingleError>(entity),
        !world.no_global(),
        !world.many_globals(),
{
    assert(world.global_at(entity.0 as int));
    if world.many_globals() {
        let (first, second) = choose|first: int, second: int|
            first != second && #[trigger] world.global_at(first) && #[trigger] world.global_at(second);
        assert(first == entity.0 && second == entity.0);
    }
    let chosen = choose|chosen: Entity| world.sole_global(chosen);
    assert(world.global_at(chosen.0 as int));
    assert(chosen.0 == entity.0);
}

/// One more entity leaves a well-formed world well formed, provided the
/// entity has a place for a record of each state type.
pub proof fn lemma_spawned_is_wf<S: State>(world: WorldView<S>, entity: EntityView<S>)
    requires
        world.wf(),
        entity.states.len() == world.graph.count(),
    ensures
        world.spawned(entity).wf(),
{
    let after = world.spawned(entity);
    assert forall|i: int| 0 <= i < after.schedule.updates.len() implies !after.unregistered(
        (#[trigger] after.schedule.updates[i]).state,
    ) by {
        let kind = after.schedule.updates[i].state;
        assert(!world.unregistered(kind));
        let marker = choose|marker: int| world.marked_at(marker, kind);
        assert(after.marked_at(marker, kind));
    }
}

} // verus!
