//! State types: their update rule, their place in the schedule, their
//! registration, and what a transition makes of their records.

use vstd::prelude::*;
use crate::data::{RegisteredState, StateData, StateTarget, StateUpdate, StateValue};
use crate::error::StateError;
use crate::graph::{StateGraph, StateId};
use crate::schedule;
use crate::schedule::{ScheduleView, ScheduledSystem, StateSystem};
use crate::state_set;
use crate::transitions;
use crate::transitions::{StateTransitionsConfig, TransitionConfig, TransitionSet};
use crate::state_set::{is_changed, StateDependencies};
use crate::world::{Entity, EntityData, EntityView, QuerySingleError, World, WorldView};
use vstd::std_specs::cmp::PartialEqSpec;

verus! {

/// The schedule that takes every registered state through one transition.
#[derive(Debug, Clone, Copy, PartialEq, Eq, Hash, Structural)]
pub struct StateTransition;

/// The system sets of the [`StateTransition`] schedule.
///
/// The schedule runs three sets in a row: all updates, then all exits, then
/// all enters. Within them the smaller sets place the systems of one
/// hierarchy order, where a smaller order is closer to the root states.
#[derive(Debug, Clone, Copy, PartialEq, Eq, Hash, Structural)]
pub enum StateSystemSet {
    /// All updates.
    AllUpdates,
    /// Lower values before higher ones.
    Update(u32),
    /// All exits.
    AllExits,
    /// Higher values before lower ones.
    Exit(u32),
    /// All enters.
    AllEnters,
    /// Same as updates, lower values before higher ones.
    Enter(u32),
}

/// A rule on the order in which the systems of two sets run.
#[derive(Debug, Clone, Copy, PartialEq, Eq, Structural)]
pub enum SetConstraint {
    /// Every system of the first set runs before any system of the second.
    Before(StateSystemSet, StateSystemSet),
    /// The systems of the first set belong to the second set as well.
    InSet(StateSystemSet, StateSystemSet),
}

impl StateSystemSet {
    /// Whether a system placed in this set belongs to `set`: the set is this
    /// one, or the one that spans all orders of its phase.
    pub open spec fn is_within(self, set: StateSystemSet) -> bool {
        self == set || match (self, set) {
            (StateSystemSet::Update(_), StateSystemSet::AllUpdates) => true,
            (StateSystemSet::Exit(_), StateSystemSet::AllExits) => true,
            (StateSystemSet::Enter(_), StateSystemSet::AllEnters) => true,
            _ => false,
        }
    }

    /// The rules that place the sets of a state type of hierarchy order
    /// `order` in the schedule: the three phases follow one another, updates
    /// and enters follow those of the order below, exits come before them.
    pub open spec fn configuration_of(order: u32) -> Seq<SetConstraint> {
        let below = (order - 1) as u32;
        seq![
            SetConstraint::Before(StateSystemSet::AllUpdates, StateSystemSet::AllExits),
            SetConstraint::Before(StateSystemSet::AllExits, StateSystemSet::AllEnters),
            SetConstraint::Before(StateSystemSet::Update(below), StateSystemSet::Update(order)),
            SetConstraint::InSet(StateSystemSet::Update(order), StateSystemSet::AllUpdates),
            SetConstraint::Before(StateSystemSet::Exit(order), StateSystemSet::Exit(below)),
            SetConstraint::InSet(StateSystemSet::Exit(order), StateSystemSet::AllExits),
            SetConstraint::Before(StateSystemSet::Enter(below), StateSystemSet::Enter(order)),
            SetConstraint::InSet(StateSystemSet::Enter(order), StateSystemSet::AllEnters),
        ]
    }

    /// The rules that place the sets of `kind` in the schedule.
    pub fn configuration(graph: &StateGraph, kind: StateId) -> (rules: Vec<SetConstraint>)
        requires
            graph.wf(),
            graph.declares(kind),
        ensures
            rules@ == Self::configuration_of(graph.order_of(kind)),
    {
        proof {
            graph.lemma_order_is_positive(kind);
        }
        let order = graph.order(kind);
        let below = order - 1;
        let mut rules = Vec::new();
        rules.push(SetConstraint::Before(Self::AllUpdates, Self::AllExits));
        rules.push(SetConstraint::Before(Self::AllExits, Self::AllEnters));
        rules.push(SetConstraint::Before(Self::Update(below), Self::update(graph, kind)));
        rules.push(SetConstraint::InSet(Self::update(graph, kind), Self::AllUpdates));
        rules.push(SetConstraint::Before(Self::exit(graph, kind), Self::Exit(below)));
        rules.push(SetConstraint::InSet(Self::exit(graph, kind), Self::AllExits));
        rules.push(SetConstraint::Before(Self::Enter(below), Self::enter(graph, kind)));
        rules.push(SetConstraint::InSet(Self::enter(graph, kind), Self::AllEnters));
        proof {
            assert(rules@ =~= Self::configuration_of(graph.order_of(kind)));
        }
        rules
    }

    /// The hierarchy order that the set belongs to, 0 for the three sets
    /// that span all orders.
    pub open spec fn order(self) -> u32 {
        match self {
            StateSystemSet::Update(order) => order,
            StateSystemSet::Exit(order) => order,
            StateSystemSet::Enter(order) => order,
            _ => 0,
        }
    }

    /// The hierarchy order that the set belongs to, 0 for the three sets
    /// that span all orders.
    pub fn order_of(&self) -> (order: u32)
        ensures
            order == self.order(),
    {
        match self {
            StateSystemSet::Update(order) => *order,
            StateSystemSet::Exit(order) => *order,
            StateSystemSet::Enter(order) => *order,
            _ => 0,
        }
    }

    /// The set of the update system of `kind`.
    pub fn update(graph: &StateGraph, kind: StateId) -> (set: Self)
        requires
            graph.wf(),
            graph.declares(kind),
        ensures
            set == StateSystemSet::Update(graph.order_of(kind)),
            set.order() == graph.order_of(kind),
    {
        Self::Update(graph.order(kind))
    }

    /// The set of the systems that announce exits of `kind`.
    pub fn exit(graph: &StateGraph, kind: StateId) -> (set: Self)
        requires
            graph.wf(),
            graph.declares(kind),
        ensures
            set == StateSystemSet::Exit(graph.order_of(kind)),
            set.order() == graph.order_of(kind),
    {
        Self::Exit(graph.order(kind))
    }

    /// The set of the systems that announce enters of `kind`.
    pub fn enter(graph: &StateGraph, kind: StateId) -> (set: Self)
        requires
            graph.wf(),
            graph.declares(kind),
        ensures
            set == StateSystemSet::Enter(graph.order_of(kind)),
            set.order() == graph.order_of(kind),
    {
        Self::Enter(graph.order(kind))
    }
}

/// Implemented by the value type of an application's states.
///
/// One value type serves every state type of a graph; the state type at hand
/// is passed to the update rule as `kind`.
pub trait State: StateValue {
    /// Called when the target of `state` asks for an update or any of its
    /// dependencies was updated in the current transition. Unless the answer
    /// is [`StateUpdate::Nothing`], it is applied to the record.
    fn update(
        kind: StateId,
        state: &StateData<Self>,
        dependencies: &StateDependencies<'_, Self>,
    ) -> StateUpdate<Self>;
}

/// Whether the update rule of `kind` can answer `decision` when it is shown
/// `state` and `dependencies`.
pub open spec fn decides<S: State>(
    kind: StateId,
    state: StateData<S>,
    dependencies: Seq<StateData<S>>,
    decision: StateUpdate<S>,
) -> bool {
    exists|shown: StateDependencies<'_, S>|
        state_set::records(shown@) == dependencies && #[trigger] call_ensures(
            S::update,
            (kind, &state, &shown),
            decision,
        )
}

/// Whether `after` is what a decision of its update rule makes of the record
/// `cleared`: no decision leaves it alone, any other is applied to it and
/// consumes the target.
pub open spec fn applies<S: State>(
    cleared: StateData<S>,
    decision: StateUpdate<S>,
    after: StateData<S>,
) -> bool {
    match decision.as_options() {
        None => after == cleared,
        Some(next) => {
            &&& after == cleared.advanced_as(next, after.is_reentrant()).with_target(
                cleared.target().consumed(),
            )
            &&& S::obeys_eq_spec() ==> after.is_reentrant() == next.eq_spec(
                &cleared.current_value(),
            )
        },
    }
}

/// Whether `after` is what one update makes of the record `before` of `kind`,
/// given the records of its dependencies.
///
/// The mark of the last transition is taken off. Then, if the target asks for
/// an update or a dependency was updated, the update rule is asked once and
/// what it decides is applied.
pub open spec fn evaluates<S: State>(
    kind: StateId,
    before: StateData<S>,
    dependencies: Seq<StateData<S>>,
    after: StateData<S>,
) -> bool {
    if state_set::any_updated(dependencies) || before.target().is_requested() {
        exists|decision: StateUpdate<S>| #[trigger]
            decides(kind, before.cleared(), dependencies, decision) && applies(
                before.cleared(),
                decision,
                after,
            )
    } else {
        after == before.cleared()
    }
}

/// Whether `after` is what the update system of `kind` makes of the entity
/// `before`: where the entity owns a record of `kind` and of each dependency,
/// that record is evaluated, and nothing else changes.
pub open spec fn entity_updated<S: State>(
    before: EntityView<S>,
    kind: StateId,
    dependencies: Seq<StateId>,
    after: EntityView<S>,
) -> bool {
    &&& before.same_but(kind, after)
    &&& if before.complete(kind, dependencies) {
        evaluates(kind, before.slot(kind)->0, before.shown(dependencies), after.slot(kind)->0)
    } else {
        after.slot(kind) == before.slot(kind)
    }
}

/// Whether `after` is what the update system of `kind` makes of the world
/// `before`.
pub open spec fn updated_by<S: State>(
    before: WorldView<S>,
    kind: StateId,
    after: WorldView<S>,
) -> bool {
    &&& after.graph == before.graph
    &&& after.schedule == before.schedule
    &&& after.entities.len() == before.entities.len()
    &&& forall|e: int|
        0 <= e < before.entities.len() ==> entity_updated(
            #[trigger] before.entities[e],
            kind,
            before.graph.dependencies_of(kind),
            after.entities[e],
        )
}

/// Whether `after` is what the update phase of a transition makes of the
/// entity at position `at` of the world `before`, where the phase runs the
/// first `done` update systems of the schedule.
///
/// A record is evaluated if the update system of its state type has run and
/// the entity owns a record of each dependency; it is evaluated against the
/// records of its dependencies as they stand after the phase. Nothing else
/// changes.
pub open spec fn entity_transitioned<S: State>(
    before: WorldView<S>,
    at: int,
    done: int,
    after: EntityView<S>,
) -> bool {
    let entity = before.entities[at];
    &&& after.global == entity.global
    &&& after.registered == entity.registered
    &&& after.states.len() == entity.states.len()
    &&& forall|kind: StateId| #[trigger]
        before.graph.declares(kind) ==> {
            &&& after.slot(kind) is Some <==> entity.slot(kind) is Some
            &&& if before.updated_within(kind, done) && entity.complete(
                kind,
                before.graph.dependencies_of(kind),
            ) {
                evaluates(
                    kind,
                    entity.slot(kind)->0,
                    after.shown(before.graph.dependencies_of(kind)),
                    after.slot(kind)->0,
                )
            } else {
                after.slot(kind) == entity.slot(kind)
            }
        }
}

/// Whether `after` is what the first `done` update systems of the schedule
/// make of the world `before`.
pub open spec fn transitioned_within<S: State>(
    before: WorldView<S>,
    done: int,
    after: WorldView<S>,
) -> bool {
    &&& after.graph == before.graph
    &&& after.schedule == before.schedule
    &&& after.entities.len() == before.entities.len()
    &&& forall|at: int|
        0 <= at < before.entities.len() ==> entity_transitioned(
            before,
            at,
            done,
            #[trigger] after.entities[at],
        )
}

/// Whether `after` is what the update phase of a transition makes of the
/// world `before`.
pub open spec fn transitioned<S: State>(before: WorldView<S>, after: WorldView<S>) -> bool {
    transitioned_within(before, before.schedule.updates.len() as int, after)
}

/// Re-evaluates the record of `kind` that one entity owns.
fn update_entity<S: State>(row: &mut EntityData<S>, kind: StateId, dependencies: &Vec<StateId>)
    requires
        kind.0 < old(row)@.states.len(),
        forall|i: int| 0 <= i < dependencies@.len() ==> (#[trigger] dependencies@[i]).0 < kind.0,
    ensures
        entity_updated(old(row)@, kind, dependencies@, final(row)@),
{
    if row.states[kind.0].is_none() {
        return;
    }
    let mut i: usize = 0;
    while i < dependencies.len()
        invariant
            i <= dependencies@.len(),
            *row == *old(row),
            kind.0 < row@.states.len(),
            forall|j: int| 0 <= j < dependencies@.len() ==> (#[trigger] dependencies@[j]).0 < kind.0,
            forall|j: int| 0 <= j < i ==> row@.slot(#[trigger] dependencies@[j]) is Some,
        decreases dependencies@.len() - i,
    {
        if row.states[dependencies[i].0].is_none() {
            return;
        }
        i += 1;
    }
    match &mut row.states[kind.0] {
        Some(state) => {
            state.is_updated = false;
        },
        None => {},
    }
    let ghost cleared = old(row)@.slot(kind)->0.cleared();
    assert(row@.slot(kind) == Some(cleared));
    let mut shown: StateDependencies<'_, S> = Vec::new();
    let mut i: usize = 0;
    while i < dependencies.len()
        invariant
            i <= dependencies@.len(),
            kind.0 < row@.states.len(),
            row@.states.len() == old(row)@.states.len(),
            row@.slot(kind) == Some(cleared),
            forall|other: StateId| other != kind ==> #[trigger] row@.slot(other) == old(row)@.slot(other),
            old(row)@.complete(kind, dependencies@),
            forall|j: int| 0 <= j < dependencies@.len() ==> (#[trigger] dependencies@[j]).0 < kind.0,
            state_set::records(shown@) == old(row)@.shown(dependencies@).take(i as int),
        decreases dependencies@.len() - i,
    {
        let dependency = dependencies[i];
        proof {
            assert(row@.slot(dependency) == old(row)@.slot(dependency));
            assert(row@.slot(dependency) == row.states@[dependency.0 as int]);
        }
        let ghost before = shown@;
        match &row.states[dependency.0] {
            Some(data) => {
                shown.push(data);
                proof {
                    let all = old(row)@.shown(dependencies@);
                    assert(*data == all[i as int]);
                    assert(shown@ == before.push(data));
                    assert(all.len() == dependencies@.len());
                    assert(state_set::records(before).len() == before.len());
                    assert(all.take(i as int).len() == i);
                    assert(before.len() == i);
                    assert(state_set::records(shown@).len() == i + 1);
                    assert forall|j: int| 0 <= j < i + 1 implies state_set::records(shown@)[j]
                        == all.take(i + 1)[j] by {
                        if j < i {
                            assert(state_set::records(before)[j] == all.take(i as int)[j]);
                        }
                    }
                    assert(state_set::records(shown@) =~= all.take(i + 1));
                }
            },
            None => {
                assert(false);
            },
        }
        i += 1;
    }
    proof {
        let all = old(row)@.shown(dependencies@);
        assert(all.take(all.len() as int) == all);
    }
    let changed = is_changed(&shown);
    let decision = match &row.states[kind.0] {
        Some(state) => {
            if changed || state.target.should_update() {
                S::update(kind, state, &shown)
            } else {
                StateUpdate::Nothing
            }
        },
        None => StateUpdate::Nothing,
    };
    let ghost triggered = changed || cleared.target().is_requested();
    proof {
        if triggered {
            assert(decides(kind, cleared, state_set::records(shown@), decision));
        }
    }
    match decision.as_options() {
        Some(next) => {
            match &mut row.states[kind.0] {
                Some(state) => {
                    state.update(next);
                    state.target.reset();
                },
                None => {},
            }
            proof {
                let after = row@.slot(kind)->0;
                assert(applies(cleared, decision, after));
            }
        },
        None => {
            proof {
                assert(applies(cleared, decision, cleared));
            }
        },
    }
}

/// The update system of `kind`: re-evaluates the record of `kind` on every
/// entity that owns one together with a record of each dependency.
pub fn update_system<S: State>(world: &mut World<S>, kind: StateId)
    requires
        old(world)@.wf(),
        old(world)@.graph.declares(kind),
    ensures
        updated_by(old(world)@, kind, final(world)@),
        final(world)@.wf(),
{
    let count = world.entities.len();
    let mut e: usize = 0;
    while e < count
        invariant
            e <= count,
            count == world.entities@.len(),
            count == old(world).entities@.len(),
            world.graph == old(world).graph,
            world.schedule == old(world).schedule,
            old(world)@.wf(),
            old(world)@.graph.declares(kind),
            forall|d: int| 0 <= d < e ==> entity_updated(
                #[trigger] old(world).entities@[d]@,
                kind,
                old(world)@.graph.dependencies_of(kind),
                world.entities@[d]@,
            ),
            forall|d: int| e <= d < count ==> world.entities@[d] == old(world).entities@[d],
        decreases count - e,
    {
        let dependencies = world.graph.dependencies(kind);
        proof {
            assert(world.entities@[e as int] == old(world).entities@[e as int]);
            assert(old(world)@.entities[e as int] == old(world).entities@[e as int]@);
            assert forall|i: int| 0 <= i < dependencies@.len() implies (#[trigger] dependencies@[i]).0
                < kind.0 by {
                assert(world.graph.depends_on(kind, dependencies@[i]));
                world.graph.lemma_dependency_is_lower(kind, dependencies@[i]);
            }
        }
        update_entity(&mut world.entities[e], kind, dependencies);
        e += 1;
    }
    proof {
        lemma_update_keeps_wf(old(world)@, kind, world@);
    }
}

/// An update system keeps a well-formed world well formed.
pub proof fn lemma_update_keeps_wf<S: State>(before: WorldView<S>, kind: StateId, after: WorldView<S>)
    requires
        before.wf(),
        updated_by(before, kind, after),
    ensures
        after.wf(),
{
    assert forall|e: int| 0 <= e < after.entities.len() implies (#[trigger] after.entities[e]).states.len()
        == after.graph.count() by {
        assert(entity_updated(
            before.entities[e],
            kind,
            before.graph.dependencies_of(kind),
            after.entities[e],
        ));
    }
    assert forall|i: int| 0 <= i < after.schedule.updates.len() implies !after.unregistered(
        (#[trigger] after.schedule.updates[i]).state,
    ) by {
        let scheduled = after.schedule.updates[i].state;
        assert(!before.unregistered(scheduled));
        let marker = choose|marker: int| before.marked_at(marker, scheduled);
        assert(entity_updated(
            before.entities[marker],
            kind,
            before.graph.dependencies_of(kind),
            after.entities[marker],
        ));
        assert(after.marked_at(marker, scheduled));
    }
}

impl<S: State> WorldView<S> {
    /// The update system of `kind` as the schedule holds it.
    pub open spec fn update_of(self, kind: StateId) -> ScheduledSystem {
        ScheduledSystem {
            system: StateSystem::Update,
            state: kind,
            set: StateSystemSet::Update(self.graph.order_of(kind)),
        }
    }

    /// The transition system `config` of `kind` as the schedule holds it.
    pub open spec fn transition_of(self, kind: StateId, config: TransitionConfig) -> ScheduledSystem {
        ScheduledSystem {
            system: StateSystem::Transition(config.system),
            state: kind,
            set: match config.set {
                TransitionSet::Exit => StateSystemSet::Exit(self.graph.order_of(kind)),
                TransitionSet::Enter => StateSystemSet::Enter(self.graph.order_of(kind)),
            },
        }
    }

    /// The world with the transition system `config` of `kind` added to the
    /// phase it asks for.
    pub open spec fn with_transition(self, kind: StateId, config: TransitionConfig) -> Self {
        let system = self.transition_of(kind, config);
        match config.set {
            TransitionSet::Exit => WorldView {
                schedule: ScheduleView {
                    exits: schedule::with_system(self.schedule.exits, system, true),
                    ..self.schedule
                },
                ..self
            },
            TransitionSet::Enter => WorldView {
                schedule: ScheduleView {
                    enters: schedule::with_system(self.schedule.enters, system, false),
                    ..self.schedule
                },
                ..self
            },
        }
    }

    /// The world with the transition systems `transitions` of `kind` added
    /// one after the other.
    pub open spec fn with_transitions(self, kind: StateId, transitions: Seq<TransitionConfig>) -> Self
        decreases transitions.len(),
    {
        if transitions.len() == 0 {
            self
        } else {
            self.with_transitions(kind, transitions.drop_last()).with_transition(
                kind,
                transitions.last(),
            )
        }
    }

    /// The world with `kind` registered: one more entity, which marks the
    /// registration, the update system of `kind` and its transition systems.
    pub open spec fn with_registered(self, kind: StateId, transitions: Seq<TransitionConfig>) -> Self {
        WorldView {
            entities: self.entities.push(EntityView::bare(false, Some(kind), self.graph.count())),
            schedule: ScheduleView {
                updates: schedule::with_system(self.schedule.updates, self.update_of(kind), false),
                ..self.schedule
            },
            ..self
        }.with_transitions(kind, transitions)
    }

    /// The world with every state type below `upto` registered that `kind`
    /// cannot do without and that no entity marks as registered, each with
    /// the standard transitions, lower names first.
    pub open spec fn with_required(self, kind: StateId, upto: int) -> Self
        decreases upto,
    {
        if upto <= 0 {
            self
        } else {
            let before = self.with_required(kind, upto - 1);
            let required = StateId((upto - 1) as usize);
            if self.graph.requires_state(kind, required) && before.unregistered(required) {
                before.with_registered(required, transitions::standard_transitions())
            } else {
                before
            }
        }
    }

    /// The world after `kind` has been registered together with all that it
    /// cannot do without: what is registered already is left alone.
    pub open spec fn with_state(self, kind: StateId, transitions: Seq<TransitionConfig>) -> Self {
        let prepared = self.with_required(kind, kind.0 as int);
        if prepared.unregistered(kind) {
            prepared.with_registered(kind, transitions)
        } else {
            prepared
        }
    }
}

/// Adding a transition system keeps a well-formed world well formed.
pub proof fn lemma_with_transition_is_wf<S: State>(
    world: WorldView<S>,
    kind: StateId,
    config: TransitionConfig,
)
    requires
        world.wf(),
        world.graph.declares(kind),
    ensures
        world.with_transition(kind, config).wf(),
        world.with_transition(kind, config).entities == world.entities,
        world.with_transition(kind, config).graph == world.graph,
        world.with_transition(kind, config).schedule.updates == world.schedule.updates,
{
    let after = world.with_transition(kind, config);
    let system = world.transition_of(kind, config);
    world.graph.lemma_order_is_positive(kind);
    match config.set {
        TransitionSet::Exit => {
            schedule::lemma_with_system_is_sorted(world.schedule.exits, system, true);
            schedule::lemma_slot(world.schedule.exits, system.order(), true);
            let at = schedule::slot(world.schedule.exits, system.order(), true);
            assert forall|i: int| 0 <= i < after.schedule.exits.len() implies {
                &&& after.graph.declares((#[trigger] after.schedule.exits[i]).state)
                &&& after.schedule.exits[i].set == StateSystemSet::Exit(
                    after.graph.order_of(after.schedule.exits[i].state),
                )
                &&& (after.schedule.exits[i].system == StateSystem::Update) == false
            } by {
                if i < at {
                    assert(after.schedule.exits[i] == world.schedule.exits[i]);
                } else if i > at {
                    assert(after.schedule.exits[i] == world.schedule.exits[i - 1]);
                }
            }
        },
        TransitionSet::Enter => {
            schedule::lemma_with_system_is_sorted(world.schedule.enters, system, false);
            schedule::lemma_slot(world.schedule.enters, system.order(), false);
            let at = schedule::slot(world.schedule.enters, system.order(), false);
            assert forall|i: int| 0 <= i < after.schedule.enters.len() implies {
                &&& after.graph.declares((#[trigger] after.schedule.enters[i]).state)
                &&& after.schedule.enters[i].set == StateSystemSet::Enter(
                    after.graph.order_of(after.schedule.enters[i].state),
                )
                &&& (after.schedule.enters[i].system == StateSystem::Update) == false
            } by {
                if i < at {
                    assert(after.schedule.enters[i] == world.schedule.enters[i]);
                } else if i > at {
                    assert(after.schedule.enters[i] == world.schedule.enters[i - 1]);
                }
            }
        },
    }
    assert forall|i: int| 0 <= i < after.schedule.updates.len() implies !after.unregistered(
        (#[trigger] after.schedule.updates[i]).state,
    ) by {
        let scheduled = after.schedule.updates[i].state;
        assert(!world.unregistered(scheduled));
        let marker = choose|marker: int| world.marked_at(marker, scheduled);
        assert(after.marked_at(marker, scheduled));
    }
}

/// Adding transition systems keeps a well-formed world well formed, and
/// touches nothing but the exits and the enters of its schedule.
pub proof fn lemma_with_transitions_is_wf<S: State>(
    world: WorldView<S>,
    kind: StateId,
    transitions: Seq<TransitionConfig>,
)
    requires
        world.wf(),
        world.graph.declares(kind),
    ensures
        world.with_transitions(kind, transitions).wf(),
        world.with_transitions(kind, transitions).entities == world.entities,
        world.with_transitions(kind, transitions).graph == world.graph,
        world.with_transitions(kind, transitions).schedule.updates == world.schedule.updates,
    decreases transitions.len(),
{
    if transitions.len() > 0 {
        lemma_with_transitions_is_wf(world, kind, transitions.drop_last());
        lemma_with_transition_is_wf(
            world.with_transitions(kind, transitions.drop_last()),
            kind,
            transitions.last(),
        );
    }
}

/// Registering a state type that no entity marks as registered keeps a
/// well-formed world well formed. It adds one entity, which marks the
/// registration, and leaves every other entity as it was.
pub proof fn lemma_with_registered_is_wf<S: State>(
    world: WorldView<S>,
    kind: StateId,
    transitions: Seq<TransitionConfig>,
)
    requires
        world.wf(),
        world.graph.declares(kind),
        world.unregistered(kind),
    ensures
        world.with_registered(kind, transitions).wf(),
        world.with_registered(kind, transitions).graph == world.graph,
        world.with_registered(kind, transitions).entities == world.entities.push(
            EntityView::bare(false, Some(kind), world.graph.count()),
        ),
{
    let marked = WorldView {
        entities: world.entities.push(EntityView::bare(false, Some(kind), world.graph.count())),
        schedule: ScheduleView {
            updates: schedule::with_system(world.schedule.updates, world.update_of(kind), false),
            ..world.schedule
        },
        ..world
    };
    let system = world.update_of(kind);
    world.graph.lemma_order_is_positive(kind);
    schedule::lemma_with_system_is_sorted(world.schedule.updates, system, false);
    schedule::lemma_slot(world.schedule.updates, system.order(), false);
    let at = schedule::slot(world.schedule.updates, system.order(), false);
    let marker = world.entities.len() as int;
    assert forall|i: int| 0 <= i < marked.schedule.updates.len() implies {
        &&& marked.graph.declares((#[trigger] marked.schedule.updates[i]).state)
        &&& marked.schedule.updates[i].set == StateSystemSet::Update(
            marked.graph.order_of(marked.schedule.updates[i].state),
        )
        &&& (marked.schedule.updates[i].system == StateSystem::Update) == true
        &&& !marked.unregistered(marked.schedule.updates[i].state)
        &&& i != at ==> marked.schedule.updates[i].state != kind
    } by {
        if i < at {
            assert(marked.schedule.updates[i] == world.schedule.updates[i]);
        } else if i > at {
            assert(marked.schedule.updates[i] == world.schedule.updates[i - 1]);
        }
        let scheduled = marked.schedule.updates[i].state;
        if i == at {
            assert(marked.marked_at(marker, kind));
        } else {
            assert(!world.unregistered(scheduled));
            let found = choose|found: int| world.marked_at(found, scheduled);
            assert(marked.marked_at(found, scheduled));
        }
    }
    assert forall|i: int, j: int| 0 <= i < j < marked.schedule.updates.len() implies (
    #[trigger] marked.schedule.updates[i]).state != (#[trigger] marked.schedule.updates[j]).state by {
        let from = |i: int| if i < at { i } else { i - 1 };
        if i != at && j != at {
            assert(marked.schedule.updates[i] == world.schedule.updates[from(i)]);
            assert(marked.schedule.updates[j] == world.schedule.updates[from(j)]);
        }
    }
    assert(marked.wf());
    lemma_with_transitions_is_wf(marked, kind, transitions);
}

/// What comes of the request to register `kind`.
///
/// More than one marker is reported wherever it is found: for `kind` and for
/// whatever it cannot do without. To register what is registered is an error
/// unless `recursive` says that it is done on behalf of a dependent state
/// type.
pub open spec fn registration<S: State>(world: WorldView<S>, kind: StateId, recursive: bool) -> Result<
    (),
    StateError,
> {
    if !world.graph.declares(kind) {
        Err(StateError::UnknownState)
    } else if exists|other: StateId|
        world.graph.requires_state(kind, other) && #[trigger] world.many_markers(other) {
        Err(StateError::MultipleRegisteredMarkers)
    } else if world.unregistered(kind) {
        Ok(())
    } else if recursive {
        Ok(())
    } else {
        Err(StateError::DuplicateRegistration)
    }
}

/// Registers `kind` alone: spawns the entity that marks the registration and
/// adds the update system and the transition systems to the schedule.
fn install<S: State>(world: &mut World<S>, kind: StateId, transitions: &Vec<TransitionConfig>)
    requires
        old(world)@.wf(),
        old(world)@.graph.declares(kind),
        old(world)@.unregistered(kind),
    ensures
        final(world)@ == old(world)@.with_registered(kind, transitions@),
        final(world)@.wf(),
{
    let ghost before = world@;
    let ghost marked = WorldView {
        entities: before.entities.push(EntityView::bare(false, Some(kind), before.graph.count())),
        schedule: ScheduleView {
            updates: schedule::with_system(before.schedule.updates, before.update_of(kind), false),
            ..before.schedule
        },
        ..before
    };
    world.spawn_registered(RegisteredState::new(kind));
    let update = ScheduledSystem {
        system: StateSystem::Update,
        state: kind,
        set: StateSystemSet::update(&world.graph, kind),
    };
    schedule::add_system(&mut world.schedule.updates, update, false);
    proof {
        assert(world@.entities =~= marked.entities);
        assert(world@ == marked);
        lemma_with_registered_is_wf(before, kind, Seq::empty());
        assert(marked == before.with_registered(kind, Seq::empty()));
    }
    let mut i: usize = 0;
    while i < transitions.len()
        invariant
            i <= transitions@.len(),
            marked.wf(),
            marked.graph.declares(kind),
            world@ == marked.with_transitions(kind, transitions@.take(i as int)),
        decreases transitions@.len() - i,
    {
        let config = transitions[i];
        proof {
            lemma_with_transitions_is_wf(marked, kind, transitions@.take(i as int));
            assert(transitions@.take(i + 1).drop_last() == transitions@.take(i as int));
        }
        let ghost reached = world@;
        match config.set {
            TransitionSet::Exit => {
                let system = ScheduledSystem {
                    system: StateSystem::Transition(config.system),
                    state: kind,
                    set: StateSystemSet::exit(&world.graph, kind),
                };
                schedule::add_system(&mut world.schedule.exits, system, true);
            },
            TransitionSet::Enter => {
                let system = ScheduledSystem {
                    system: StateSystem::Transition(config.system),
                    state: kind,
                    set: StateSystemSet::enter(&world.graph, kind),
                };
                schedule::add_system(&mut world.schedule.enters, system, false);
            },
        }
        proof {
            assert(world@.entities =~= reached.entities);
            assert(world@ == reached.with_transition(kind, config));
        }
        i += 1;
    }
    proof {
        assert(transitions@.take(transitions@.len() as int) == transitions@);
        lemma_with_transitions_is_wf(marked, kind, transitions@);
    }
}

/// Whether more than one entity marks as registered a state type below
/// `upto` that `kind` cannot do without.
pub open spec fn requires_many_markers<S: State>(world: WorldView<S>, kind: StateId, upto: int) -> bool {
    exists|other: StateId|
        other.0 < upto && world.graph.requires_state(kind, other) && #[trigger] world.many_markers(
            other,
        )
}

/// Registers all required states: every state type that `kind` cannot do
/// without and that no entity marks as registered, each with the standard
/// transitions, lower names first. `kind` itself is left alone.
///
/// Returns whether more than one entity marks one of them as registered.
pub fn register_required_states<S: State>(world: &mut World<S>, kind: StateId) -> (multiple: bool)
    requires
        old(world)@.wf(),
        old(world)@.graph.declares(kind),
    ensures
        final(world)@.wf(),
        final(world)@ == old(world)@.with_required(kind, kind.0 as int),
        final(world)@.graph == old(world)@.graph,
        multiple == requires_many_markers(old(world)@, kind, kind.0 as int),
        forall|other: StateId|
            other.0 >= kind.0 ==> #[trigger] final(world)@.unregistered(other) == old(
                world,
            )@.unregistered(other),
        forall|other: StateId| #[trigger]
            final(world)@.many_markers(other) == old(world)@.many_markers(other),
{
    let required = world.graph.required_states(kind);
    let standard = StateTransitionsConfig::default();
    let mut multiple = false;
    let mut next: usize = 0;
    while next < kind.0
        invariant
            next <= kind.0,
            old(world)@.wf(),
            old(world)@.graph.declares(kind),
            world@.wf(),
            world@ == old(world)@.with_required(kind, next as int),
            world@.graph == old(world)@.graph,
            forall|other: StateId|
                other.0 >= next ==> #[trigger] world@.unregistered(other) == old(world)@.unregistered(
                    other,
                ),
            forall|other: StateId| #[trigger] world@.many_markers(other) == old(world)@.many_markers(other),
            multiple == requires_many_markers(old(world)@, kind, next as int),
            standard@ == transitions::standard_transitions(),
            required@.len() == kind.0 + 1,
            forall|other: StateId|
                other.0 <= kind.0 ==> #[trigger] required@[other.0 as int]
                    == old(world)@.graph.requires_state(kind, other),
        decreases kind.0 - next,
    {
        let dependency = StateId(next);
        let ghost before = world@;
        let ghost found = multiple;
        if required[next] {
            match world.single_registered(dependency) {
                Err(QuerySingleError::NoEntities) => {
                    proof {
                        lemma_with_registered_is_wf(before, dependency, standard@);
                        lemma_with_registered_marks(before, dependency, standard@);
                    }
                    install(world, dependency, &standard.systems);
                },
                Err(QuerySingleError::MultipleEntities) => {
                    multiple = true;
                },
                Ok(_) => {},
            }
        }
        proof {
            assert(required@[dependency.0 as int] == old(world)@.graph.requires_state(
                kind,
                dependency,
            ));
            let here = old(world)@.graph.requires_state(kind, dependency) && old(world)@.many_markers(
                dependency,
            );
            assert(multiple == (found || here));
            if found {
                let other = choose|other: StateId|
                    other.0 < next && old(world)@.graph.requires_state(kind, other)
                        && #[trigger] old(world)@.many_markers(other);
                assert(other.0 < next + 1);
            }
            if multiple && !found {
                assert(dependency.0 < next + 1 && old(world)@.many_markers(dependency));
            }
            if !multiple {
                assert forall|other: StateId|
                    !(other.0 < next + 1 && old(world)@.graph.requires_state(kind, other)
                        && #[trigger] old(world)@.many_markers(other)) by {
                    if other.0 < next {
                    } else if other.0 == next {
                        assert(other == dependency);
                    }
                }
            }
        }
        next += 1;
    }
    multiple
}

/// Registers `kind` in the world together with everything that it cannot do
/// without.
///
/// Each state type among them that no entity marks as registered gets its
/// marker, its update system and its transition systems: those of
/// `transitions` for `kind`, the standard ones for the others. A state type
/// that is marked already is left alone.
///
/// It is an error to register a state type that is not declared, or that is
/// registered already (unless `recursive` says that the call is made on
/// behalf of a dependent state type). It is an error too if more than one
/// entity marks `kind`, or anything that it cannot do without, as
/// registered; the others are registered all the same.
pub fn register_state<S: State>(
    world: &mut World<S>,
    kind: StateId,
    transitions: StateTransitionsConfig,
    recursive: bool,
) -> (registered: Result<(), StateError>)
    requires
        old(world)@.wf(),
    ensures
        final(world)@.wf(),
        final(world)@ == if old(world)@.graph.declares(kind) {
            old(world)@.with_state(kind, transitions@)
        } else {
            old(world)@
        },
        registered == registration(old(world)@, kind, recursive),
{
    if !world.graph.contains(kind) {
        return Err(StateError::UnknownState);
    }
    let mut multiple = register_required_states(world, kind);
    let ghost prepared = world@;
    let registered = match world.single_registered(kind) {
        Err(QuerySingleError::NoEntities) => {
            proof {
                lemma_with_registered_is_wf(prepared, kind, transitions@);
            }
            install(world, kind, &transitions.systems);
            Ok(())
        },
        Err(QuerySingleError::MultipleEntities) => {
            multiple = true;
            Ok(())
        },
        Ok(_) => {
            if recursive {
                Ok(())
            } else {
                Err(StateError::DuplicateRegistration)
            }
        },
    };
    proof {
        let graph = old(world)@.graph;
        let anywhere = exists|other: StateId|
            graph.requires_state(kind, other) && #[trigger] old(world)@.many_markers(other);
        if multiple {
            if old(world)@.many_markers(kind) {
                assert(graph.requires_state(kind, kind));
            } else {
                let other = choose|other: StateId|
                    other.0 < kind.0 && graph.requires_state(kind, other)
                        && #[trigger] old(world)@.many_markers(other);
                assert(graph.requires_state(kind, other) && old(world)@.many_markers(other));
            }
            assert(anywhere);
        } else if anywhere {
            let other = choose|other: StateId|
                graph.requires_state(kind, other) && #[trigger] old(world)@.many_markers(other);
            if other != kind {
                graph.lemma_required_is_lower(kind, other);
                assert(other.0 < kind.0);
            }
            assert(false);
        }
    }
    if multiple {
        Err(StateError::MultipleRegisteredMarkers)
    } else {
        registered
    }
}

/// Two entities that differ in their record of `kind` at most show the same
/// records to a state type that does not depend on `kind`.
proof fn lemma_shown_alike<S: State>(
    first: EntityView<S>,
    second: EntityView<S>,
    kind: StateId,
    dependencies: Seq<StateId>,
)
    requires
        first.same_but(kind, second),
        !dependencies.contains(kind),
    ensures
        first.shown(dependencies) == second.shown(dependencies),
        first.complete(kind, dependencies) == second.complete(kind, dependencies),
{
    assert forall|i: int| 0 <= i < dependencies.len() implies first.slot(#[trigger] dependencies[i])
        == second.slot(dependencies[i]) by {
        assert(dependencies.contains(dependencies[i]));
    }
    assert(first.shown(dependencies) =~= second.shown(dependencies));
}

/// Before any update system has run, the world is as it was.
pub(crate) proof fn lemma_update_start<S: State>(world: WorldView<S>)
    ensures
        transitioned_within(world, 0, world),
{
    assert forall|kind: StateId| !world.updated_within(kind, 0) by {}
}

/// One more update system takes the update phase one step further.
pub(crate) proof fn lemma_update_step<S: State>(
    before: WorldView<S>,
    done: int,
    reached: WorldView<S>,
    next: WorldView<S>,
)
    requires
        before.wf(),
        0 <= done < before.schedule.updates.len(),
        transitioned_within(before, done, reached),
        updated_by(reached, before.schedule.updates[done].state, next),
    ensures
        transitioned_within(before, done + 1, next),
{
    let running = before.schedule.updates[done].state;
    let graph = before.graph;
    assert(graph.declares(running));
    assert(!before.updated_within(running, done)) by {
        if before.updated_within(running, done) {
            let i = choose|i: int|
                0 <= i < done && i < before.schedule.updates.len() && (
                #[trigger] before.schedule.updates[i]).state == running;
            assert(before.schedule.updates[i].state != before.schedule.updates[done].state);
        }
    }
    assert(before.updated_within(running, done + 1));
    assert forall|kind: StateId| kind != running implies before.updated_within(kind, done + 1)
        == before.updated_within(kind, done) by {
        if before.updated_within(kind, done + 1) {
            let i = choose|i: int|
                0 <= i < done + 1 && i < before.schedule.updates.len() && (
                #[trigger] before.schedule.updates[i]).state == kind;
            assert(i < done);
        }
        if before.updated_within(kind, done) {
            let i = choose|i: int|
                0 <= i < done && i < before.schedule.updates.len() && (
                #[trigger] before.schedule.updates[i]).state == kind;
            assert(i < done + 1);
        }
    }
    assert forall|at: int| 0 <= at < before.entities.len() implies entity_transitioned(
        before,
        at,
        done + 1,
        #[trigger] next.entities[at],
    ) by {
        let entity = before.entities[at];
        let middle = reached.entities[at];
        let after = next.entities[at];
        assert(entity_transitioned(before, at, done, middle));
        assert(entity_updated(middle, running, graph.dependencies_of(running), after));
        assert forall|kind: StateId| #[trigger] graph.declares(kind) implies {
            &&& after.slot(kind) is Some <==> entity.slot(kind) is Some
            &&& if before.updated_within(kind, done + 1) && entity.complete(
                kind,
                graph.dependencies_of(kind),
            ) {
                evaluates(
                    kind,
                    entity.slot(kind)->0,
                    after.shown(graph.dependencies_of(kind)),
                    after.slot(kind)->0,
                )
            } else {
                after.slot(kind) == entity.slot(kind)
            }
        } by {
            let dependencies = graph.dependencies_of(kind);
            assert forall|i: int| 0 <= i < dependencies.len() implies graph.declares(
                #[trigger] dependencies[i],
            ) && (middle.slot(dependencies[i]) is Some <==> entity.slot(dependencies[i]) is Some) by {
                let dependency = dependencies[i];
                assert(dependencies.contains(dependency));
                assert(graph.depends_on(kind, dependency));
                graph.lemma_dependency_is_lower(kind, dependency);
                assert(graph.declares(dependency));
                assert(before.graph.declares(dependency));
                assert(middle.slot(dependency) is Some <==> entity.slot(dependency) is Some);
            }
            assert(middle.complete(kind, dependencies) == entity.complete(kind, dependencies));
            if kind == running {
                assert(!dependencies.contains(running)) by {
                    if dependencies.contains(running) {
                        graph.lemma_dependency_is_lower(kind, running);
                    }
                }
                lemma_shown_alike(middle, after, running, dependencies);
            } else {
                if before.updated_within(kind, done) && dependencies.contains(running) {
                    let i = choose|i: int|
                        0 <= i < done && i < before.schedule.updates.len() && (
                        #[trigger] before.schedule.updates[i]).state == kind;
                    graph.lemma_dependency_is_lower(kind, running);
                    assert(schedule::in_order(
                        before.schedule.updates[i].order(),
                        before.schedule.updates[done].order(),
                        false,
                    ));
                    assert(false);
                }
                if !dependencies.contains(running) {
                    lemma_shown_alike(middle, after, running, dependencies);
                }
            }
        }
    }
}

/// A transition leaves alone every state that has no cause to change: where
/// the target of a record holds no request and no record that it depends on
/// was updated in the transition, the update rule is not asked. The record
/// keeps its values, and does not count as updated if its update system ran.
///
/// This is what makes a computed state pure: its target, the unit target,
/// never holds a request, so nothing but a change of a dependency updates it.
pub proof fn lemma_idle_state_is_left_alone<S: State>(
    before: WorldView<S>,
    after: WorldView<S>,
    kind: StateId,
    entity: Entity,
)
    requires
        before.wf(),
        transitioned(before, after),
        before.graph.declares(kind),
        before.slot(kind, entity) is Some,
        !before.slot(kind, entity).unwrap().target().is_requested(),
        forall|i: int|
            0 <= i < before.graph.dependencies_of(kind).len() ==> {
                let dependency = #[trigger] before.graph.dependencies_of(kind)[i];
                after.slot(dependency, entity) is Some ==> !after.slot(
                    dependency,
                    entity,
                ).unwrap().is_updated()
            },
    ensures
        after.slot(kind, entity) is Some,
        after.slot(kind, entity).unwrap().cleared() == before.slot(kind, entity).unwrap().cleared(),
        before.updates(kind) && before.entities[entity.0 as int].complete(
            kind,
            before.graph.dependencies_of(kind),
        ) ==> !after.slot(kind, entity).unwrap().is_updated(),
        !(before.updates(kind) && before.entities[entity.0 as int].complete(
            kind,
            before.graph.dependencies_of(kind),
        )) ==> after.slot(kind, entity) == before.slot(kind, entity),
{
    let at = entity.0 as int;
    let row = before.entities[at];
    let dependencies = before.graph.dependencies_of(kind);
    let done = before.schedule.updates.len() as int;
    assert(entity_transitioned(before, at, done, after.entities[at]));
    assert(before.updates(kind) == before.updated_within(kind, done));
    if before.updates(kind) && row.complete(kind, dependencies) {
        let shown = after.entities[at].shown(dependencies);
        assert(!state_set::any_updated(shown)) by {
            if state_set::any_updated(shown) {
                let i = choose|i: int| 0 <= i < shown.len() && (#[trigger] shown[i]).is_updated();
                let dependency = dependencies[i];
                assert(before.graph.depends_on(kind, dependency));
                before.graph.lemma_dependency_is_lower(kind, dependency);
                assert(before.graph.declares(dependency));
                assert(row.slot(dependency) is Some);
                assert(after.entities[at].slot(dependency) is Some);
            }
        }
    }
}

/// A request is consumed by the update that it causes: whenever the update
/// system of a state type leaves a record marked as updated, the target of
/// the record holds no request any more, and the next transition leaves the
/// record alone unless something new is staged or a dependency changes.
pub proof fn lemma_updated_state_has_no_request<S: State>(
    before: WorldView<S>,
    after: WorldView<S>,
    kind: StateId,
    entity: Entity,
)
    requires
        before.wf(),
        transitioned(before, after),
        before.graph.declares(kind),
        before.has_entity(entity),
        before.updates(kind),
        before.entities[entity.0 as int].complete(kind, before.graph.dependencies_of(kind)),
        after.slot(kind, entity).unwrap().is_updated(),
    ensures
        !after.slot(kind, entity).unwrap().target().is_requested(),
{
    let at = entity.0 as int;
    let done = before.schedule.updates.len() as int;
    let data = before.entities[at].slot(kind).unwrap();
    assert(entity_transitioned(before, at, done, after.entities[at]));
    assert(before.updates(kind) == before.updated_within(kind, done));
    data.cleared().target().consumed_is_idle();
}

/// A computed state is pure: with the unit target, a record is left alone
/// by every transition in which no record that it depends on was updated.
pub proof fn lemma_computed_state_is_pure<S: State<Target = ()>>(
    before: WorldView<S>,
    after: WorldView<S>,
    kind: StateId,
    entity: Entity,
)
    requires
        before.wf(),
        transitioned(before, after),
        before.graph.declares(kind),
        before.slot(kind, entity) is Some,
        forall|i: int|
            0 <= i < before.graph.dependencies_of(kind).len() ==> {
                let dependency = #[trigger] before.graph.dependencies_of(kind)[i];
                after.slot(dependency, entity) is Some ==> !after.slot(
                    dependency,
                    entity,
                ).unwrap().is_updated()
            },
    ensures
        after.slot(kind, entity) is Some,
        after.slot(kind, entity).unwrap().cleared() == before.slot(kind, entity).unwrap().cleared(),
        before.updates(kind) && before.entities[entity.0 as int].complete(
            kind,
            before.graph.dependencies_of(kind),
        ) ==> !after.slot(kind, entity).unwrap().is_updated(),
{
    lemma_idle_state_is_left_alone(before, after, kind, entity);
}

/// Registering a state type that no entity marks as registered leaves the
/// markers of every entity alone and gives the state type a marker.
proof fn lemma_with_registered_marks<S: State>(
    world: WorldView<S>,
    kind: StateId,
    transitions: Seq<TransitionConfig>,
)
    requires
        world.wf(),
        world.graph.declares(kind),
        world.unregistered(kind),
    ensures
        !world.with_registered(kind, transitions).unregistered(kind),
        forall|other: StateId|
            other != kind ==> #[trigger] world.with_registered(kind, transitions).unregistered(other)
                == world.unregistered(other),
        forall|other: StateId| #[trigger]
            world.with_registered(kind, transitions).many_markers(other) == world.many_markers(other),
{
    let after = world.with_registered(kind, transitions);
    lemma_with_registered_is_wf(world, kind, transitions);
    let marker = world.entities.len() as int;
    assert(after.marked_at(marker, kind));
    assert forall|other: StateId| #[trigger] after.many_markers(other) == world.many_markers(other) by {
        if world.many_markers(other) {
            let (first, second) = choose|first: int, second: int|
                first != second && #[trigger] world.marked_at(first, other) && #[trigger] world.marked_at(
                    second,
                    other,
                );
            assert(after.marked_at(first, other) && after.marked_at(second, other));
        }
        if after.many_markers(other) {
            let (first, second) = choose|first: int, second: int|
                first != second && #[trigger] after.marked_at(first, other) && #[trigger] after.marked_at(
                    second,
                    other,
                );
            if first != marker {
                assert(world.marked_at(first, other));
            }
            if second != marker {
                assert(world.marked_at(second, other));
            }
            assert(world.marked_at(first, other) && world.marked_at(second, other));
        }
    }
    assert forall|other: StateId| other != kind implies #[trigger] after.unregistered(other)
        == world.unregistered(other) by {
        if !world.unregistered(other) {
            let at = choose|at: int| world.marked_at(at, other);
            assert(after.marked_at(at, other));
        }
        if !after.unregistered(other) {
            let at = choose|at: int| after.marked_at(at, other);
            assert(world.marked_at(at, other));
        }
    }
}

/// Registering what `kind` cannot do without keeps a well-formed world well
/// formed. Afterwards every such state type below `upto` is marked as
/// registered, and every state type from `upto` on is marked as before.
proof fn lemma_with_required<S: State>(world: WorldView<S>, kind: StateId, upto: int)
    requires
        world.wf(),
        world.graph.declares(kind),
        0 <= upto <= kind.0,
    ensures
        world.with_required(kind, upto).wf(),
        world.with_required(kind, upto).graph == world.graph,
        forall|other: StateId|
            other.0 < upto && world.graph.requires_state(kind, other) ==> !#[trigger] world.with_required(
                kind,
                upto,
            ).unregistered(other),
        forall|other: StateId|
            !world.unregistered(other) ==> !#[trigger] world.with_required(kind, upto).unregistered(
                other,
            ),
        forall|other: StateId|
            other.0 >= upto ==> #[trigger] world.with_required(kind, upto).unregistered(other)
                == world.unregistered(other),
    decreases upto,
{
    if upto > 0 {
        lemma_with_required(world, kind, upto - 1);
        let before = world.with_required(kind, upto - 1);
        let required = StateId((upto - 1) as usize);
        if world.graph.requires_state(kind, required) && before.unregistered(required) {
            lemma_with_registered_is_wf(before, required, transitions::standard_transitions());
            lemma_with_registered_marks(before, required, transitions::standard_transitions());
        }
        let after = world.with_required(kind, upto);
        assert forall|other: StateId|
            other.0 < upto && world.graph.requires_state(kind, other) implies !#[trigger] after.unregistered(
            other,
        ) by {
            if other.0 < upto - 1 {
                assert(!before.unregistered(other));
            } else {
                assert(other == required);
            }
        }
        assert forall|other: StateId| !world.unregistered(other) implies !#[trigger] after.unregistered(
            other,
        ) by {
            assert(!before.unregistered(other));
        }
        assert forall|other: StateId| other.0 >= upto implies #[trigger] after.unregistered(other)
            == world.unregistered(other) by {
            assert(before.unregistered(other) == world.unregistered(other));
        }
    }
}

/// Where everything below `upto` that `kind` cannot do without is marked as
/// registered, there is nothing to register.
proof fn lemma_with_required_of_registered<S: State>(world: WorldView<S>, kind: StateId, upto: int)
    requires
        forall|other: StateId|
            other.0 < upto && world.graph.requires_state(kind, other) ==> !#[trigger] world.unregistered(
                other,
            ),
        upto <= usize::MAX,
    ensures
        world.with_required(kind, upto) == world,
    decreases upto,
{
    if upto > 0 {
        lemma_with_required_of_registered(world, kind, upto - 1);
        let required = StateId((upto - 1) as usize);
        if world.graph.requires_state(kind, required) {
            assert(!world.unregistered(required));
        }
    }
}

/// Registration is idempotent: to register a state type once more, with
/// whatever transitions, changes nothing, neither in the schedule nor among
/// the entities. Once registered, a state type and everything that it cannot
/// do without are marked as registered.
pub proof fn lemma_registration_is_idempotent<S: State>(
    world: WorldView<S>,
    kind: StateId,
    first: Seq<TransitionConfig>,
    second: Seq<TransitionConfig>,
)
    requires
        world.wf(),
        world.graph.declares(kind),
    ensures
        world.with_state(kind, first).wf(),
        world.with_state(kind, first).with_state(kind, second) == world.with_state(kind, first),
        forall|other: StateId|
            world.graph.requires_state(kind, other) ==> !#[trigger] world.with_state(
                kind,
                first,
            ).unregistered(other),
        registration(world.with_state(kind, first), kind, false) is Err,
{
    let count = kind.0 as int;
    let prepared = world.with_required(kind, count);
    let registered = world.with_state(kind, first);
    lemma_with_required(world, kind, count);
    if prepared.unregistered(kind) {
        lemma_with_registered_is_wf(prepared, kind, first);
        lemma_with_registered_marks(prepared, kind, first);
    }
    assert forall|other: StateId| world.graph.requires_state(kind, other) implies !#[trigger] registered.unregistered(
        other,
    ) by {
        if other != kind {
            world.graph.lemma_required_is_lower(kind, other);
            assert(!prepared.unregistered(other));
        }
    }
    lemma_with_required_of_registered(registered, kind, count);
}

impl ScheduleView {
    /// The systems in the order in which a transition runs them: the
    /// updates, then the exits, then the enters.
    pub open spec fn sequence(self) -> Seq<ScheduledSystem> {
        self.updates + self.exits + self.enters
    }

    /// Whether the order in which the systems run keeps to `rule`.
    pub open spec fn respects(self, rule: SetConstraint) -> bool {
        match rule {
            SetConstraint::Before(first, second) => forall|i: int, j: int|
                0 <= i < self.sequence().len() && 0 <= j < self.sequence().len() && (
                #[trigger] self.sequence()[i]).set.is_within(first) && (
                #[trigger] self.sequence()[j]).set.is_within(second) ==> i < j,
            SetConstraint::InSet(member, set) => member.is_within(set),
        }
    }
}

/// The schedule of a well-formed world keeps to the rules that place the
/// sets of each of its state types.
pub proof fn lemma_schedule_respects_configuration<S: State>(world: WorldView<S>, kind: StateId)
    requires
        world.wf(),
        world.graph.declares(kind),
    ensures
        forall|i: int|
            0 <= i < StateSystemSet::configuration_of(world.graph.order_of(kind)).len()
                ==> world.schedule.respects(
                #[trigger] StateSystemSet::configuration_of(world.graph.order_of(kind))[i],
            ),
{
    world.graph.lemma_order_is_positive(kind);
    let order = world.graph.order_of(kind);
    let below = (order - 1) as u32;
    let rules = StateSystemSet::configuration_of(order);
    let sequence = world.schedule.sequence();
    let updates = world.schedule.updates;
    let exits = world.schedule.exits;
    let enters = world.schedule.enters;
    assert forall|i: int| 0 <= i < sequence.len() implies match (#[trigger] sequence[i]).set {
        StateSystemSet::Update(_) => i < updates.len() && sequence[i] == updates[i],
        StateSystemSet::Exit(_) => updates.len() <= i < updates.len() + exits.len() && sequence[i]
            == exits[i - updates.len()],
        StateSystemSet::Enter(_) => updates.len() + exits.len() <= i && sequence[i] == enters[i
            - updates.len() - exits.len()],
        _ => false,
    } by {
        if i < updates.len() {
            assert(sequence[i] == updates[i]);
        } else if i < updates.len() + exits.len() {
            assert(sequence[i] == exits[i - updates.len()]);
        } else {
            assert(sequence[i] == enters[i - updates.len() - exits.len()]);
        }
    }
    assert(world.schedule.respects(rules[0]));
    assert(world.schedule.respects(rules[1]));
    assert(world.schedule.respects(rules[2])) by {
        assert forall|i: int, j: int|
            0 <= i < sequence.len() && 0 <= j < sequence.len() && (#[trigger] sequence[i]).set.is_within(
                StateSystemSet::Update(below),
            ) && (#[trigger] sequence[j]).set.is_within(StateSystemSet::Update(order)) implies i
            < j by {
            if j <= i {
                assert(i != j);
                assert(schedule::in_order(updates[j].order(), updates[i].order(), false));
            }
        }
    }
    assert(world.schedule.respects(rules[3]));
    assert(world.schedule.respects(rules[4])) by {
        assert forall|i: int, j: int|
            0 <= i < sequence.len() && 0 <= j < sequence.len() && (#[trigger] sequence[i]).set.is_within(
                StateSystemSet::Exit(order),
            ) && (#[trigger] sequence[j]).set.is_within(StateSystemSet::Exit(below)) implies i
            < j by {
            if j <= i {
                assert(i != j);
                assert(schedule::in_order(
                    exits[j - updates.len()].order(),
                    exits[i - updates.len()].order(),
                    true,
                ));
            }
        }
    }
    assert(world.schedule.respects(rules[5]));
    assert(world.schedule.respects(rules[6])) by {
        assert forall|i: int, j: int|
            0 <= i < sequence.len() && 0 <= j < sequence.len() && (#[trigger] sequence[i]).set.is_within(
                StateSystemSet::Enter(below),
            ) && (#[trigger] sequence[j]).set.is_within(StateSystemSet::Enter(order)) implies i
            < j by {
            if j <= i {
                assert(i != j);
                assert(schedule::in_order(
                    enters[j - updates.len() - exits.len()].order(),
                    enters[i - updates.len() - exits.len()].order(),
                    false,
                ));
            }
        }
    }
    assert(world.schedule.respects(rules[7]));
}

} // verus!
