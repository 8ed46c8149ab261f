use bevy_state::commands::StatesExt;
use bevy_state::data::{StateData, StateUpdate, StateValue};
use bevy_state::graph::{StateGraph, StateId};
use bevy_state::schedule::TransitionSystem;
use bevy_state::state::{State, StateTransition};
use bevy_state::state_set::StateDependencies;
use bevy_state::transitions::{
    on_enter_transition, on_exit_transition, on_reenter_transition, on_reexit_transition,
    trigger_transitions, OnEnter, OnExit, OnReenter, OnReexit, StateEvent,
    StateTransitionsConfig, Triggered,
};
use bevy_state::world::{Entity, World};

/// A value of a state in these tests: a plain number.
#[derive(Clone, Debug, PartialEq)]
struct Level(u32);

const ROOT: StateId = StateId(0);
const MID: StateId = StateId(1);
const LEAF: StateId = StateId(2);
const OTHER: StateId = StateId(3);

impl StateValue for Level {
    type Target = StateUpdate<Level>;
}

impl State for Level {
    fn update(
        kind: StateId,
        state: &StateData<Self>,
        dependencies: &StateDependencies<'_, Self>,
    ) -> StateUpdate<Self> {
        if kind == ROOT || kind == OTHER {
            state.target().clone()
        } else {
            match dependencies[0].current() {
                Some(Level(below)) => StateUpdate::Enable(Level(below + 1)),
                None => StateUpdate::Disable,
            }
        }
    }
}

fn new_world() -> World<Level> {
    let mut graph = StateGraph::new();
    assert_eq!(graph.declare(()), Ok(ROOT));
    assert_eq!(graph.declare(ROOT), Ok(MID));
    assert_eq!(graph.declare(MID), Ok(LEAF));
    assert_eq!(graph.declare(()), Ok(OTHER));
    World::new(graph)
}

/// What an event says, in a form that can be compared.
fn told(triggered: &Triggered<Level>) -> (&'static str, StateId, Option<Entity>, Option<u32>, Option<u32>) {
    let level = |value: &Option<Level>| value.as_ref().map(|level| level.0);
    let (name, previous, current) = match &triggered.event {
        StateEvent::Exit(event) => ("exit", level(&event.previous), level(&event.current)),
        StateEvent::Enter(event) => ("enter", level(&event.previous), level(&event.current)),
        StateEvent::Reexit(event) => ("reexit", level(&event.previous), level(&event.current)),
        StateEvent::Reenter(event) => ("reenter", level(&event.previous), level(&event.current)),
    };
    (name, triggered.state, triggered.target, previous, current)
}

fn all_told(triggered: &Vec<Triggered<Level>>) -> Vec<(&'static str, StateId, Option<Entity>, Option<u32>, Option<u32>)> {
    triggered.iter().map(told).collect()
}

#[test]
fn events_hold_what_they_are_made_of() {
    let exit = OnExit::new(Some(Level(1)), Some(Level(2)));
    assert_eq!((exit.previous, exit.current), (Some(Level(1)), Some(Level(2))));
    let enter = OnEnter::new(None, Some(Level(2)));
    assert_eq!((enter.previous, enter.current), (None, Some(Level(2))));
    let reexit = OnReexit::new(Some(Level(3)), None);
    assert_eq!((reexit.previous, reexit.current), (Some(Level(3)), None));
    let reenter = OnReenter::<Level>::new(None, None);
    assert_eq!((reenter.previous, reenter.current), (None, None));
}

#[test]
fn propagation_ordering() {
    let mut world = new_world();
    assert_eq!(world.register_state(LEAF, StateTransitionsConfig::default()), Ok(()));
    assert_eq!(world.init_state(LEAF, None, None, true), Ok(()));
    assert_eq!(world.state_target(ROOT, None, Some(Level(1))), Ok(()));
    let triggered = world.run_schedule(StateTransition);
    assert_eq!(
        all_told(&triggered),
        vec![
            ("exit", LEAF, None, None, Some(3)),
            ("exit", MID, None, None, Some(2)),
            ("exit", ROOT, None, None, Some(1)),
            ("enter", ROOT, None, None, Some(1)),
            ("enter", MID, None, None, Some(2)),
            ("enter", LEAF, None, None, Some(3)),
        ]
    );
    assert_eq!(world.state_target(ROOT, None, Some(Level(5))), Ok(()));
    let triggered = world.run_schedule(StateTransition);
    assert_eq!(
        all_told(&triggered),
        vec![
            ("exit", LEAF, None, Some(3), Some(7)),
            ("exit", MID, None, Some(2), Some(6)),
            ("exit", ROOT, None, Some(1), Some(5)),
            ("enter", ROOT, None, Some(1), Some(5)),
            ("enter", MID, None, Some(2), Some(6)),
            ("enter", LEAF, None, Some(3), Some(7)),
        ]
    );
}

#[test]
fn propagation_ordering_holds_whatever_the_order_of_registration() {
    let mut world = new_world();
    assert_eq!(world.register_state(OTHER, StateTransitionsConfig::default()), Ok(()));
    assert_eq!(world.register_state(MID, StateTransitionsConfig::default()), Ok(()));
    assert_eq!(world.register_state(LEAF, StateTransitionsConfig::default()), Ok(()));
    assert_eq!(world.init_state(LEAF, None, None, true), Ok(()));
    assert_eq!(world.init_state(OTHER, None, None, true), Ok(()));
    assert_eq!(world.state_target(ROOT, None, Some(Level(1))), Ok(()));
    assert_eq!(world.state_target(OTHER, None, Some(Level(100))), Ok(()));
    let triggered = world.run_schedule(StateTransition);
    let told = all_told(&triggered);
    assert_eq!(told.len(), 8);
    let place = |name: &str, state: StateId| -> usize {
        told.iter().position(|event| event.0 == name && event.1 == state).unwrap()
    };
    // Every exit comes before every enter.
    assert!(told[0..4].iter().all(|event| event.0 == "exit"));
    assert!(told[4..8].iter().all(|event| event.0 == "enter"));
    // Exits from the leaf to the root.
    assert!(place("exit", LEAF) < place("exit", MID));
    assert!(place("exit", MID) < place("exit", ROOT));
    assert!(place("exit", MID) < place("exit", OTHER));
    // Enters from the root to the leaf.
    assert!(place("enter", ROOT) < place("enter", MID));
    assert!(place("enter", OTHER) < place("enter", MID));
    assert!(place("enter", MID) < place("enter", LEAF));
}

#[test]
fn events_of_local_states_are_aimed_at_their_entity() {
    let mut world = new_world();
    assert_eq!(world.register_state(ROOT, StateTransitionsConfig::default()), Ok(()));
    let marker = world.single_registered(ROOT).unwrap();
    let first = world.spawn_empty();
    let second = world.spawn_empty();
    assert_eq!(world.init_state(ROOT, Some(second), None, true), Ok(()));
    assert_eq!(world.init_state(ROOT, None, None, true), Ok(()));
    assert_eq!(world.init_state(ROOT, Some(first), None, true), Ok(()));
    assert_eq!((marker, first, second), (Entity(0), Entity(1), Entity(2)));
    assert_eq!(world.state_target(ROOT, Some(second), Some(Level(2))), Ok(()));
    assert_eq!(world.state_target(ROOT, None, Some(Level(0))), Ok(()));
    assert_eq!(world.state_target(ROOT, Some(first), Some(Level(1))), Ok(()));
    let triggered = world.run_schedule(StateTransition);
    assert_eq!(
        all_told(&triggered),
        vec![
            ("exit", ROOT, Some(first), None, Some(1)),
            ("exit", ROOT, Some(second), None, Some(2)),
            ("exit", ROOT, None, None, Some(0)),
            ("enter", ROOT, Some(first), None, Some(1)),
            ("enter", ROOT, Some(second), None, Some(2)),
            ("enter", ROOT, None, None, Some(0)),
        ]
    );
}

#[test]
fn transition_systems_tell_reentries_apart() {
    let mut world = new_world();
    assert_eq!(world.register_state(ROOT, StateTransitionsConfig::empty()), Ok(()));
    let changed = world.spawn_empty();
    let reentered = world.spawn_empty();
    let idle = world.spawn_empty();
    let _bare = world.spawn_empty();
    assert_eq!(world.init_state(ROOT, Some(changed), Some(Level(1)), true), Ok(()));
    assert_eq!(world.init_state(ROOT, Some(reentered), Some(Level(2)), true), Ok(()));
    assert_eq!(world.init_state(ROOT, Some(idle), Some(Level(3)), true), Ok(()));
    assert_eq!(world.state_target(ROOT, Some(changed), Some(Level(10))), Ok(()));
    assert_eq!(world.state_target(ROOT, Some(reentered), Some(Level(2))), Ok(()));
    // Without transition systems nothing is told.
    assert!(world.run_schedule(StateTransition).is_empty());

    let mut commands = Vec::new();
    on_exit_transition(&world, ROOT, &mut commands);
    assert_eq!(all_told(&commands), vec![("exit", ROOT, Some(changed), Some(1), Some(10))]);
    on_enter_transition(&world, ROOT, &mut commands);
    assert_eq!(
        all_told(&commands),
        vec![
            ("exit", ROOT, Some(changed), Some(1), Some(10)),
            ("enter", ROOT, Some(changed), Some(1), Some(10)),
        ]
    );
    let mut commands = Vec::new();
    on_reexit_transition(&world, ROOT, &mut commands);
    on_reenter_transition(&world, ROOT, &mut commands);
    assert_eq!(
        all_told(&commands),
        vec![
            ("reexit", ROOT, Some(changed), Some(1), Some(10)),
            ("reexit", ROOT, Some(reentered), None, Some(2)),
            ("reenter", ROOT, Some(changed), Some(1), Some(10)),
            ("reenter", ROOT, Some(reentered), None, Some(2)),
        ]
    );
    let mut commands = Vec::new();
    trigger_transitions(&world, TransitionSystem::OnEnter, MID, &mut commands);
    assert!(commands.is_empty());
    trigger_transitions(&world, TransitionSystem::OnReexit, ROOT, &mut commands);
    assert_eq!(commands.len(), 2);
}

#[test]
fn a_record_initialized_as_updated_is_told_by_the_systems() {
    let mut world = new_world();
    let entity = world.spawn_empty();
    assert_eq!(world.init_state(ROOT, Some(entity), Some(Level(4)), false), Ok(()));
    let mut commands = Vec::new();
    on_enter_transition(&world, ROOT, &mut commands);
    assert_eq!(all_told(&commands), vec![("enter", ROOT, Some(entity), None, Some(4))]);
    let suppressed = world.spawn_empty();
    assert_eq!(world.init_state(ROOT, Some(suppressed), Some(Level(5)), true), Ok(()));
    let mut commands = Vec::new();
    on_enter_transition(&world, ROOT, &mut commands);
    assert_eq!(all_told(&commands), vec![("enter", ROOT, Some(entity), None, Some(4))]);
}

#[test]
fn custom_transitions_can_run_in_either_phase() {
    let mut world = new_world();
    let config = StateTransitionsConfig::empty()
        .with_on_enter(TransitionSystem::OnExit)
        .with_on_exit(TransitionSystem::OnEnter);
    assert_eq!(world.register_state(ROOT, config), Ok(()));
    assert_eq!(world.init_state(ROOT, None, None, true), Ok(()));
    assert_eq!(world.state_target(ROOT, None, Some(Level(1))), Ok(()));
    let triggered = world.run_schedule(StateTransition);
    assert_eq!(
        all_told(&triggered),
        vec![("enter", ROOT, None, None, Some(1)), ("exit", ROOT, None, None, Some(1))]
    );
}
