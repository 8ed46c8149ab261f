//! The events that announce transitions, and the systems that trigger them.

use vstd::prelude::*;
use crate::data::StateData;
use crate::graph::StateId;
use crate::schedule;
use crate::schedule::{ScheduledSystem, StateSystem, TransitionSystem};
use crate::state::{State, StateSystemSet};
use crate::world::{Entity, World, WorldView};

verus! {

/// The phase in which a transition system runs.
#[derive(Debug, Clone, Copy, PartialEq, Eq, Structural)]
pub enum TransitionSet {
    /// With the exits, from leaf states to root states.
    Exit,
    /// With the enters, from root states to leaf states.
    Enter,
}

/// A transition system together with the phase it is to run in.
#[derive(Debug, Clone, Copy, PartialEq, Eq, Structural)]
pub struct TransitionConfig {
    pub system: TransitionSystem,
    pub set: TransitionSet,
}

/// The transition systems to install for a state type when it is registered.
pub struct StateTransitionsConfig {
    pub(crate) systems: Vec<TransitionConfig>,
}

impl View for StateTransitionsConfig {
    type V = Seq<TransitionConfig>;

    open(crate) spec fn view(&self) -> Seq<TransitionConfig> {
        self.systems@
    }
}

/// The standard transitions: [`OnExit`] with the exits, [`OnEnter`] with the
/// enters.
pub open spec fn standard_transitions() -> Seq<TransitionConfig> {
    seq![
        TransitionConfig { system: TransitionSystem::OnExit, set: TransitionSet::Exit },
        TransitionConfig { system: TransitionSystem::OnEnter, set: TransitionSet::Enter },
    ]
}

impl Default for StateTransitionsConfig {
    /// Config that creates the standard [`OnExit`] and [`OnEnter`] transitions.
    fn default() -> (config: Self)
        ensures
            config@ == standard_transitions(),
    {
        let mut systems = Vec::new();
        systems.push(TransitionConfig { system: TransitionSystem::OnExit, set: TransitionSet::Exit });
        systems.push(
            TransitionConfig { system: TransitionSystem::OnEnter, set: TransitionSet::Enter },
        );
        proof {
            assert(systems@ =~= standard_transitions());
        }
        Self { systems }
    }
}

impl StateTransitionsConfig {
    /// Config that creates no transitions.
    /// For standard [`OnExit`] and [`OnEnter`] use the [`StateTransitionsConfig::default`].
    pub fn empty() -> (config: Self)
        ensures
            config@ == Seq::<TransitionConfig>::empty(),
    {
        Self { systems: Vec::new() }
    }

    /// The transition systems of the config with their phases, in the order
    /// in which they were added.
    pub fn systems(&self) -> (systems: &Vec<TransitionConfig>)
        ensures
            systems@ == self@,
    {
        &self.systems
    }

    /// Adds a system to run when state is exited.
    /// An example system that runs [`OnExit`] is [`on_exit_transition`].
    pub fn with_on_exit(self, system: TransitionSystem) -> (config: Self)
        ensures
            config@ == self@.push(TransitionConfig { system, set: TransitionSet::Exit }),
    {
        let mut config = self;
        config.systems.push(TransitionConfig { system, set: TransitionSet::Exit });
        config
    }

    /// Adds a system to run when state is entered.
    /// An example system that runs [`OnEnter`] is [`on_enter_transition`].
    pub fn with_on_enter(self, system: TransitionSystem) -> (config: Self)
        ensures
            config@ == self@.push(TransitionConfig { system, set: TransitionSet::Enter }),
    {
        let mut config = self;
        config.systems.push(TransitionConfig { system, set: TransitionSet::Enter });
        config
    }
}

/// Event triggered when a state is exited.
/// Reentrant transitions are ignored.
pub struct OnExit<S: State> {
    /// Previous state.
    pub previous: Option<S>,
    /// Current state.
    pub current: Option<S>,
}

impl<S: State> OnExit<S> {
    /// The event of a transition from `previous` to `current`.
    pub fn new(previous: Option<S>, current: Option<S>) -> (event: Self)
        ensures
            event.previous == previous,
            event.current == current,
    {
        Self { previous, current }
    }
}

/// Event triggered when a state is entered.
/// Reentrant transitions are ignored.
pub struct OnEnter<S: State> {
    /// Previous state.
    pub previous: Option<S>,
    /// Current state.
    pub current: Option<S>,
}

impl<S: State> OnEnter<S> {
    /// The event of a transition from `previous` to `current`.
    pub fn new(previous: Option<S>, current: Option<S>) -> (event: Self)
        ensures
            event.previous == previous,
            event.current == current,
    {
        Self { previous, current }
    }
}

/// Event triggered when a state is exited.
/// Reentrant transitions are included.
pub struct OnReexit<S: State> {
    /// Previous state.
    pub previous: Option<S>,
    /// Current state.
    pub current: Option<S>,
}

impl<S: State> OnReexit<S> {
    /// The event of a transition from `previous` to `current`.
    pub fn new(previous: Option<S>, current: Option<S>) -> (event: Self)
        ensures
            event.previous == previous,
            event.current == current,
    {
        Self { previous, current }
    }
}

/// Event triggered when a state is entered.
/// Reentrant transitions are included.
pub struct OnReenter<S: State> {
    /// Previous state.
    pub previous: Option<S>,
    /// Current state.
    pub current: Option<S>,
}

impl<S: State> OnReenter<S> {
    /// The event of a transition from `previous` to `current`.
    pub fn new(previous: Option<S>, current: Option<S>) -> (event: Self)
        ensures
            event.previous == previous,
            event.current == current,
    {
        Self { previous, current }
    }
}

/// Any of the events of a transition.
pub enum StateEvent<S: State> {
    Exit(OnExit<S>),
    Enter(OnEnter<S>),
    Reexit(OnReexit<S>),
    Reenter(OnReenter<S>),
}

/// An event on its way to the observers: the state type it is about and the
/// entity it is aimed at, which is none for a global state.
pub struct Triggered<S: State> {
    pub state: StateId,
    pub target: Option<Entity>,
    pub event: StateEvent<S>,
}

/// What there is to announce: `system` found the record of `state` on
/// `entity` worth an event.
pub struct Firing {
    pub system: TransitionSystem,
    pub state: StateId,
    pub entity: Entity,
}

/// Whether `copy` is a clone of `value`, or as absent as `value` is.
pub open spec fn snapshot<S: State>(value: Option<S>, copy: Option<S>) -> bool {
    match (value, copy) {
        (None, None) => true,
        (Some(value), Some(copy)) => cloned(value, copy),
        _ => false,
    }
}

/// Whether `system` has an event to trigger for the record `data`: the
/// record was updated in this transition, and was not merely reentered
/// unless the system includes reentries.
pub open spec fn fires<S: State>(system: TransitionSystem, data: StateData<S>) -> bool {
    match system {
        TransitionSystem::OnExit | TransitionSystem::OnEnter => data.is_updated()
            && !data.is_reentrant(),
        TransitionSystem::OnReexit | TransitionSystem::OnReenter => data.is_updated(),
    }
}

/// Whether `triggered` is the event of `system` for the record `data` of
/// `state` on `entity`: of the kind that the system triggers, with snapshots
/// of the previous and the current value, aimed at the entity or, for the
/// owner of the global states, at nothing.
pub open spec fn announces<S: State>(
    system: TransitionSystem,
    state: StateId,
    entity: Entity,
    global: bool,
    data: StateData<S>,
    triggered: Triggered<S>,
) -> bool {
    &&& triggered.state == state
    &&& triggered.target == if global {
        None
    } else {
        Some(entity)
    }
    &&& match (system, triggered.event) {
        (TransitionSystem::OnExit, StateEvent::Exit(event)) => snapshot(
            data.previous_value(),
            event.previous,
        ) && snapshot(data.current_value(), event.current),
        (TransitionSystem::OnEnter, StateEvent::Enter(event)) => snapshot(
            data.previous_value(),
            event.previous,
        ) && snapshot(data.current_value(), event.current),
        (TransitionSystem::OnReexit, StateEvent::Reexit(event)) => snapshot(
            data.previous_value(),
            event.previous,
        ) && snapshot(data.current_value(), event.current),
        (TransitionSystem::OnReenter, StateEvent::Reenter(event)) => snapshot(
            data.previous_value(),
            event.previous,
        ) && snapshot(data.current_value(), event.current),
        _ => false,
    }
}

impl<S: State> WorldView<S> {
    /// What `system` finds to announce of `state` on the first `upto`
    /// entities, in the order of the entities.
    pub open spec fn system_firings(self, system: TransitionSystem, state: StateId, upto: int) -> Seq<
        Firing,
    >
        decreases upto,
    {
        if upto <= 0 {
            Seq::empty()
        } else {
            let before = self.system_firings(system, state, upto - 1);
            let entity = Entity((upto - 1) as usize);
            match self.slot(state, entity) {
                Some(data) => if fires(system, data) {
                    before.push(Firing { system, state, entity })
                } else {
                    before
                },
                None => before,
            }
        }
    }

    /// What the first `upto` systems of `systems` find to announce, system by
    /// system in their order.
    pub open spec fn phase_firings(self, systems: Seq<ScheduledSystem>, upto: int) -> Seq<Firing>
        decreases upto,
    {
        if upto <= 0 {
            Seq::empty()
        } else {
            let before = self.phase_firings(systems, upto - 1);
            match systems[upto - 1].system {
                StateSystem::Transition(system) => before + self.system_firings(
                    system,
                    systems[upto - 1].state,
                    self.entities.len() as int,
                ),
                StateSystem::Update => before,
            }
        }
    }

    /// What the exits of a transition find to announce.
    pub open spec fn exit_firings(self) -> Seq<Firing> {
        self.phase_firings(self.schedule.exits, self.schedule.exits.len() as int)
    }

    /// What the enters of a transition find to announce.
    pub open spec fn enter_firings(self) -> Seq<Firing> {
        self.phase_firings(self.schedule.enters, self.schedule.enters.len() as int)
    }

    /// What a transition has to announce once the records are updated: first
    /// what the exits find, then what the enters find.
    pub open spec fn firings(self) -> Seq<Firing> {
        self.exit_firings() + self.enter_firings()
    }

    /// Whether `triggered` holds, one for one, the events for `firings`.
    pub open spec fn announced(self, firings: Seq<Firing>, triggered: Seq<Triggered<S>>) -> bool {
        &&& triggered.len() == firings.len()
        &&& forall|i: int|
            0 <= i < firings.len() ==> {
                &&& self.slot((#[trigger] firings[i]).state, firings[i].entity) is Some
                &&& announces(
                    firings[i].system,
                    firings[i].state,
                    firings[i].entity,
                    self.is_global(firings[i].entity),
                    self.slot(firings[i].state, firings[i].entity)->0,
                    triggered[i],
                )
            }
    }
}

/// The events for two runs of firings, one run after the other, are the
/// events for both.
pub proof fn lemma_announced_in_turn<S: State>(
    world: WorldView<S>,
    first: Seq<Firing>,
    second: Seq<Firing>,
    triggered: Seq<Triggered<S>>,
)
    requires
        first.len() <= triggered.len(),
        world.announced(first, triggered.take(first.len() as int)),
        world.announced(second, triggered.skip(first.len() as int)),
    ensures
        world.announced(first + second, triggered),
{
    let all = first + second;
    assert forall|i: int| 0 <= i < all.len() implies {
        &&& world.slot((#[trigger] all[i]).state, all[i].entity) is Some
        &&& announces(
            all[i].system,
            all[i].state,
            all[i].entity,
            world.is_global(all[i].entity),
            world.slot(all[i].state, all[i].entity)->0,
            triggered[i],
        )
    } by {
        if i < first.len() {
            assert(all[i] == first[i]);
            assert(triggered[i] == triggered.take(first.len() as int)[i]);
        } else {
            assert(all[i] == second[i - first.len()]);
            assert(triggered[i] == triggered.skip(first.len() as int)[i - first.len()]);
        }
    }
}

/// What a system finds to announce, it finds of the records of its state
/// type, on entities of the world.
pub proof fn lemma_system_firings<S: State>(
    world: WorldView<S>,
    system: TransitionSystem,
    state: StateId,
    upto: int,
)
    requires
        upto <= world.entities.len(),
    ensures
        forall|i: int|
            0 <= i < world.system_firings(system, state, upto).len() ==> {
                let firing = #[trigger] world.system_firings(system, state, upto)[i];
                &&& firing.system == system
                &&& firing.state == state
                &&& world.slot(state, firing.entity) is Some
                &&& fires(system, world.slot(state, firing.entity).unwrap())
            },
    decreases upto,
{
    if upto > 0 {
        lemma_system_firings(world, system, state, upto - 1);
    }
}

/// Whether each of `firings` is about a state type of a hierarchy order that
/// lets it come before all that follow it, in a phase that runs leaves first
/// (`descending`) or roots first.
pub open spec fn are_ordered<S: State>(world: WorldView<S>, firings: Seq<Firing>, descending: bool) -> bool {
    forall|i: int, j: int|
        0 <= i < j < firings.len() ==> schedule::in_order(
            world.graph.order_of((#[trigger] firings[i]).state),
            world.graph.order_of((#[trigger] firings[j]).state),
            descending,
        )
}

/// What the systems of a sorted phase find to announce comes in the order of
/// the phase, and is about the state types of its systems.
proof fn lemma_phase_firings<S: State>(
    world: WorldView<S>,
    systems: Seq<ScheduledSystem>,
    set_of: spec_fn(u32) -> StateSystemSet,
    descending: bool,
    upto: int,
)
    requires
        0 <= upto <= systems.len(),
        schedule::is_sorted(systems, descending),
        world.fits(systems, set_of, false),
        forall|order: u32| (#[trigger] set_of(order)).order() == order,
    ensures
        are_ordered(world, world.phase_firings(systems, upto), descending),
        forall|i: int|
            0 <= i < world.phase_firings(systems, upto).len() ==> exists|at: int|
                0 <= at < upto && (#[trigger] systems[at]).state == (#[trigger] world.phase_firings(
                    systems,
                    upto,
                )[i]).state,
    decreases upto,
{
    if upto > 0 {
        lemma_phase_firings(world, systems, set_of, descending, upto - 1);
        let before = world.phase_firings(systems, upto - 1);
        let all = world.phase_firings(systems, upto);
        let last = systems[upto - 1];
        match last.system {
            StateSystem::Transition(system) => {
                let found = world.system_firings(system, last.state, world.entities.len() as int);
                lemma_system_firings(world, system, last.state, world.entities.len() as int);
                assert(all == before + found);
                assert forall|i: int| 0 <= i < all.len() implies exists|at: int|
                    0 <= at < upto && (#[trigger] systems[at]).state == (#[trigger] all[i]).state by {
                    if i < before.len() {
                        assert(all[i] == before[i]);
                        let at = choose|at: int|
                            0 <= at < upto - 1 && (#[trigger] systems[at]).state == before[i].state;
                        assert(systems[at].state == all[i].state);
                    } else {
                        assert(all[i] == found[i - before.len()]);
                        assert(systems[upto - 1].state == all[i].state);
                    }
                }
                assert forall|i: int, j: int| 0 <= i < j < all.len() implies schedule::in_order(
                    world.graph.order_of((#[trigger] all[i]).state),
                    world.graph.order_of((#[trigger] all[j]).state),
                    descending,
                ) by {
                    if j < before.len() {
                        assert(all[i] == before[i] && all[j] == before[j]);
                    } else {
                        assert(all[j] == found[j - before.len()]);
                        if i < before.len() {
                            assert(all[i] == before[i]);
                            let at = choose|at: int|
                                0 <= at < upto - 1 && (#[trigger] systems[at]).state
                                    == before[i].state;
                            assert(schedule::in_order(
                                systems[at].order(),
                                systems[upto - 1].order(),
                                descending,
                            ));
                            assert(systems[at].set == set_of(world.graph.order_of(systems[at].state)));
                            assert(last.set == set_of(world.graph.order_of(last.state)));
                        } else {
                            assert(all[i] == found[i - before.len()]);
                        }
                    }
                }
            },
            StateSystem::Update => {},
        }
    }
}

/// The events of a transition come in the order of the hierarchy: among the
/// exits no state type comes before one of a higher order, among the enters
/// none comes before one of a lower order.
pub proof fn lemma_firings_follow_the_hierarchy<S: State>(world: WorldView<S>)
    requires
        world.wf(),
    ensures
        are_ordered(world, world.exit_firings(), true),
        are_ordered(world, world.enter_firings(), false),
{
    lemma_phase_firings(
        world,
        world.schedule.exits,
        |order: u32| StateSystemSet::Exit(order),
        true,
        world.schedule.exits.len() as int,
    );
    lemma_phase_firings(
        world,
        world.schedule.enters,
        |order: u32| StateSystemSet::Enter(order),
        false,
        world.schedule.enters.len() as int,
    );
}

/// Propagation ordering: a state type exits before everything that it cannot
/// do without, and enters after it.
///
/// If `dependent` cannot do without `required`, every exit of `dependent`
/// is announced before any exit of `required`, and every enter of `required`
/// before any enter of `dependent`.
pub proof fn lemma_dependents_exit_first_and_enter_last<S: State>(
    world: WorldView<S>,
    dependent: StateId,
    required: StateId,
)
    requires
        world.wf(),
        world.graph.declares(dependent),
        world.graph.requires_state(dependent, required),
        dependent != required,
    ensures
        forall|i: int, j: int|
            0 <= i < world.exit_firings().len() && 0 <= j < world.exit_firings().len() && (
            #[trigger] world.exit_firings()[i]).state == dependent && (
            #[trigger] world.exit_firings()[j]).state == required ==> i < j,
        forall|i: int, j: int|
            0 <= i < world.enter_firings().len() && 0 <= j < world.enter_firings().len() && (
            #[trigger] world.enter_firings()[i]).state == required && (
            #[trigger] world.enter_firings()[j]).state == dependent ==> i < j,
{
    lemma_firings_follow_the_hierarchy(world);
    world.graph.lemma_required_is_lower(dependent, required);
    let exits = world.exit_firings();
    assert forall|i: int, j: int|
        0 <= i < exits.len() && 0 <= j < exits.len() && (#[trigger] exits[i]).state == dependent && (
        #[trigger] exits[j]).state == required implies i < j by {
        if j < i {
            assert(schedule::in_order(
                world.graph.order_of(exits[j].state),
                world.graph.order_of(exits[i].state),
                true,
            ));
        }
    }
    let enters = world.enter_firings();
    assert forall|i: int, j: int|
        0 <= i < enters.len() && 0 <= j < enters.len() && (#[trigger] enters[i]).state == required && (
        #[trigger] enters[j]).state == dependent implies i < j by {
        if j < i {
            assert(schedule::in_order(
                world.graph.order_of(enters[j].state),
                world.graph.order_of(enters[i].state),
                false,
            ));
        }
    }
}

/// The event of `system` with the given snapshots.
fn event_of<S: State>(system: TransitionSystem, previous: Option<S>, current: Option<S>) -> (event:
    StateEvent<S>)
    ensures
        event == match system {
            TransitionSystem::OnExit => StateEvent::Exit(OnExit { previous, current }),
            TransitionSystem::OnEnter => StateEvent::Enter(OnEnter { previous, current }),
            TransitionSystem::OnReexit => StateEvent::Reexit(OnReexit { previous, current }),
            TransitionSystem::OnReenter => StateEvent::Reenter(OnReenter { previous, current }),
        },
{
    match system {
        TransitionSystem::OnExit => StateEvent::Exit(OnExit::new(previous, current)),
        TransitionSystem::OnEnter => StateEvent::Enter(OnEnter::new(previous, current)),
        TransitionSystem::OnReexit => StateEvent::Reexit(OnReexit::new(previous, current)),
        TransitionSystem::OnReenter => StateEvent::Reenter(OnReenter::new(previous, current)),
    }
}

/// Whether `system` has an event to trigger for `data`.
fn has_fired<S: State>(system: TransitionSystem, data: &StateData<S>) -> (fired: bool)
    ensures
        fired == fires(system, *data),
{
    match system {
        TransitionSystem::OnExit | TransitionSystem::OnEnter => data.is_updated()
            && !data.is_reentrant(),
        TransitionSystem::OnReexit | TransitionSystem::OnReenter => data.is_updated(),
    }
}

/// Runs `system` for `state`: adds to `commands`, entity by entity, the event
/// for each record of `state` that the system finds worth one.
pub fn trigger_transitions<S: State>(
    world: &World<S>,
    system: TransitionSystem,
    state: StateId,
    commands: &mut Vec<Triggered<S>>,
)
    ensures
        final(commands)@.len() >= old(commands)@.len(),
        final(commands)@.take(old(commands)@.len() as int) == old(commands)@,
        world@.announced(
            world@.system_firings(system, state, world@.entities.len() as int),
            final(commands)@.skip(old(commands)@.len() as int),
        ),
{
    let count = world.entities.len();
    let ghost start = commands@.len() as int;
    let mut e: usize = 0;
    proof {
        assert(commands@.skip(start) =~= Seq::empty());
        assert(commands@.take(start) =~= commands@);
    }
    while e < count
        invariant
            e <= count,
            count == world@.entities.len(),
            start == old(commands)@.len(),
            commands@.len() >= start,
            commands@.take(start) == old(commands)@,
            world@.announced(world@.system_firings(system, state, e as int), commands@.skip(start)),
        decreases count - e,
    {
        let entity = Entity(e);
        let ghost before = commands@;
        let ghost found = world@.system_firings(system, state, e as int);
        match world.get(state, entity) {
            Some(data) => {
                if has_fired(system, data) {
                    let target = if world.entities[e].global {
                        None
                    } else {
                        Some(entity)
                    };
                    let event = event_of(system, data.previous().cloned(), data.current().cloned());
                    commands.push(Triggered { state, target, event });
                    proof {
                        let firing = Firing { system, state, entity };
                        let added = commands@.skip(start);
                        assert(added =~= before.skip(start).push(commands@.last()));
                        assert(commands@.take(start) =~= before.take(start));
                        assert(world@.system_firings(system, state, e + 1) == found.push(firing));
                        assert(world@.is_global(entity) == world.entities@[e as int].global);
                        assert forall|i: int| 0 <= i < found.len() + 1 implies {
                            &&& world@.slot(
                                (#[trigger] found.push(firing)[i]).state,
                                found.push(firing)[i].entity,
                            ) is Some
                            &&& announces(
                                found.push(firing)[i].system,
                                found.push(firing)[i].state,
                                found.push(firing)[i].entity,
                                world@.is_global(found.push(firing)[i].entity),
                                world@.slot(found.push(firing)[i].state, found.push(firing)[i].entity)->0,
                                added[i],
                            )
                        } by {
                            if i < found.len() {
                                assert(found.push(firing)[i] == found[i]);
                                assert(added[i] == before.skip(start)[i]);
                            }
                        }
                    }
                }
            },
            None => {},
        }
        e += 1;
    }
}

/// Triggers [`OnExit`] for every record of `state` that was updated, and not
/// merely reentered, in this transition.
pub fn on_exit_transition<S: State>(world: &World<S>, state: StateId, commands: &mut Vec<Triggered<S>>)
    ensures
        final(commands)@.len() >= old(commands)@.len(),
        final(commands)@.take(old(commands)@.len() as int) == old(commands)@,
        world@.announced(
            world@.system_firings(TransitionSystem::OnExit, state, world@.entities.len() as int),
            final(commands)@.skip(old(commands)@.len() as int),
        ),
{
    trigger_transitions(world, TransitionSystem::OnExit, state, commands)
}

/// Triggers [`OnEnter`] for every record of `state` that was updated, and not
/// merely reentered, in this transition.
pub fn on_enter_transition<S: State>(world: &World<S>, state: StateId, commands: &mut Vec<Triggered<S>>)
    ensures
        final(commands)@.len() >= old(commands)@.len(),
        final(commands)@.take(old(commands)@.len() as int) == old(commands)@,
        world@.announced(
            world@.system_firings(TransitionSystem::OnEnter, state, world@.entities.len() as int),
            final(commands)@.skip(old(commands)@.len() as int),
        ),
{
    trigger_transitions(world, TransitionSystem::OnEnter, state, commands)
}

/// Triggers [`OnReexit`] for every record of `state` that was updated in this
/// transition, reentered or not.
pub fn on_reexit_transition<S: State>(world: &World<S>, state: StateId, commands: &mut Vec<Triggered<S>>)
    ensures
        final(commands)@.len() >= old(commands)@.len(),
        final(commands)@.take(old(commands)@.len() as int) == old(commands)@,
        world@.announced(
            world@.system_firings(TransitionSystem::OnReexit, state, world@.entities.len() as int),
            final(commands)@.skip(old(commands)@.len() as int),
        ),
{
    trigger_transitions(world, TransitionSystem::OnReexit, state, commands)
}

/// Triggers [`OnReenter`] for every record of `state` that was updated in
/// this transition, reentered or not.
pub fn on_reenter_transition<S: State>(world: &World<S>, state: StateId, commands: &mut Vec<Triggered<S>>)
    ensures
        final(commands)@.len() >= old(commands)@.len(),
        final(commands)@.take(old(commands)@.len() as int) == old(commands)@,
        world@.announced(
            world@.system_firings(TransitionSystem::OnReenter, state, world@.entities.len() as int),
            final(commands)@.skip(old(commands)@.len() as int),
        ),
{
    trigger_transitions(world, TransitionSystem::OnReenter, state, commands)
}

/// Runs the transition systems among `systems` in their order and adds the
/// events that they trigger to `commands`.
pub(crate) fn run_transitions<S: State>(
    world: &World<S>,
    systems: &Vec<ScheduledSystem>,
    commands: &mut Vec<Triggered<S>>,
)
    ensures
        final(commands)@.len() >= old(commands)@.len(),
        final(commands)@.take(old(commands)@.len() as int) == old(commands)@,
        world@.announced(
            world@.phase_firings(systems@, systems@.len() as int),
            final(commands)@.skip(old(commands)@.len() as int),
        ),
{
    let ghost start = commands@.len() as int;
    proof {
        assert(commands@.skip(start) =~= Seq::empty());
        assert(commands@.take(start) =~= commands@);
    }
    let mut i: usize = 0;
    while i < systems.len()
        invariant
            i <= systems@.len(),
            start == old(commands)@.len(),
            commands@.len() >= start,
            commands@.take(start) == old(commands)@,
            world@.announced(world@.phase_firings(systems@, i as int), commands@.skip(start)),
        decreases systems@.len() - i,
    {
        let ghost before = commands@;
        match systems[i].system {
            StateSystem::Transition(system) => {
                trigger_transitions(world, system, systems[i].state, commands);
                proof {
                    let found = world@.phase_firings(systems@, i as int);
                    let more = world@.system_firings(
                        system,
                        systems@[i as int].state,
                        world@.entities.len() as int,
                    );
                    let added = commands@.skip(start);
                    assert(commands@.take(start) =~= commands@.take(before.len() as int).take(start));
                    assert(added.take(found.len() as int) =~= before.skip(start)) by {
                        assert(commands@.take(before.len() as int) == before);
                        assert forall|j: int| 0 <= j < found.len() implies added.take(
                            found.len() as int,
                        )[j] == before.skip(start)[j] by {
                            assert(commands@.take(before.len() as int)[start + j] == before[start + j]);
                        }
                    }
                    assert(added.skip(found.len() as int) =~= commands@.skip(before.len() as int));
                    lemma_announced_in_turn(world@, found, more, added);
                }
            },
            StateSystem::Update => {},
        }
        i += 1;
    }
}

} // verus!
