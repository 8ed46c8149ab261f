use bevy_state::commands::StatesExt;
use bevy_state::data::{GlobalStateMarker, StateData, StateUpdate, StateValue};
use bevy_state::graph::{StateGraph, StateId};
use bevy_state::state::{State, StateTransition};
use bevy_state::state_set::StateDependencies;
use bevy_state::transitions::StateTransitionsConfig;
use bevy_state::util::{in_state, state_changed, state_changed_to, GlobalState, GlobalStateMut};
use bevy_state::world::World;

/// A value of a state in these tests: a plain number.
#[derive(Clone, Debug, PartialEq)]
struct Level(u32);

const ROOT: StateId = StateId(0);
const OTHER: StateId = StateId(1);

impl StateValue for Level {
    type Target = StateUpdate<Level>;
}

impl State for Level {
    fn update(
        _kind: StateId,
        state: &StateData<Self>,
        _dependencies: &StateDependencies<'_, Self>,
    ) -> StateUpdate<Self> {
        state.target().clone()
    }
}

fn new_world() -> World<Level> {
    let mut graph = StateGraph::new();
    assert_eq!(graph.declare(()), Ok(ROOT));
    assert_eq!(graph.declare(()), Ok(OTHER));
    let mut world = World::new(graph);
    assert_eq!(world.register_state(ROOT, StateTransitionsConfig::default()), Ok(()));
    assert_eq!(world.register_state(OTHER, StateTransitionsConfig::default()), Ok(()));
    world
}

#[test]
fn global_state_is_found_if_there_is_one() {
    let mut world = new_world();
    assert!(GlobalState::new(&world, ROOT).try_get().is_none());
    assert_eq!(world.init_state(ROOT, None, Some(Level(1)), true), Ok(()));
    assert_eq!(GlobalState::new(&world, ROOT).try_get().unwrap().current(), Some(&Level(1)));
    assert_eq!(GlobalState::new(&world, ROOT).get().current(), Some(&Level(1)));
    assert!(GlobalState::new(&world, OTHER).try_get().is_none());
    // A local state is no global state.
    let entity = world.spawn_empty();
    assert_eq!(world.init_state(OTHER, Some(entity), Some(Level(2)), true), Ok(()));
    assert!(GlobalState::new(&world, OTHER).try_get().is_none());
    assert!(GlobalState::new(&world, StateId(9)).try_get().is_none());
}

#[test]
fn global_state_is_not_found_if_there_are_two() {
    let mut world = new_world();
    assert_eq!(world.init_state(ROOT, None, Some(Level(1)), true), Ok(()));
    let second = world.spawn(GlobalStateMarker);
    // The second global entity has no record of the state: one is found.
    assert_eq!(GlobalState::new(&world, ROOT).try_get().unwrap().current(), Some(&Level(1)));
    assert_eq!(world.init_state(ROOT, Some(second), Some(Level(2)), true), Ok(()));
    assert!(GlobalState::new(&world, ROOT).try_get().is_none());
    assert!(GlobalStateMut::new(&mut world, ROOT).try_get().is_none());
    assert!(GlobalStateMut::new(&mut world, ROOT).try_get_mut().is_none());
}

#[test]
fn global_state_mut_reads_and_stages() {
    let mut world = new_world();
    assert!(GlobalStateMut::new(&mut world, ROOT).try_get_mut().is_none());
    assert_eq!(world.init_state(ROOT, None, Some(Level(1)), true), Ok(()));
    {
        let mut state = GlobalStateMut::new(&mut world, ROOT);
        assert_eq!(state.get().current(), Some(&Level(1)));
        assert_eq!(state.try_get().unwrap().current(), Some(&Level(1)));
        *state.get_mut().target_mut() = StateUpdate::Enable(Level(2));
        assert!(state.get().target().is_something());
    }
    world.run_schedule(StateTransition);
    assert_eq!(GlobalState::new(&world, ROOT).get().current(), Some(&Level(2)));
    {
        let mut state = GlobalStateMut::new(&mut world, ROOT);
        *state.try_get_mut().unwrap().target_mut() = StateUpdate::Disable;
    }
    world.run_schedule(StateTransition);
    assert_eq!(GlobalState::new(&world, ROOT).get().current(), None);
    assert_eq!(GlobalState::new(&world, ROOT).get().previous(), Some(&Level(2)));
}

#[test]
fn in_state_compares_the_current_value() {
    let mut world = new_world();
    assert_eq!(world.init_state(ROOT, None, None, true), Ok(()));
    assert!(in_state(None::<Level>)(GlobalState::new(&world, ROOT)));
    assert!(!in_state(Some(Level(1)))(GlobalState::new(&world, ROOT)));
    assert_eq!(world.state_target(ROOT, None, Some(Level(1))), Ok(()));
    // Staged, not applied yet.
    assert!(in_state(None::<Level>)(GlobalState::new(&world, ROOT)));
    world.run_schedule(StateTransition);
    let condition = in_state(Some(Level(1)));
    assert!(condition(GlobalState::new(&world, ROOT)));
    assert!(condition(GlobalState::new(&world, ROOT)));
    assert!(!in_state(Some(Level(2)))(GlobalState::new(&world, ROOT)));
    assert!(!in_state(None::<Level>)(GlobalState::new(&world, ROOT)));
}

#[test]
fn state_changed_tells_the_ticks_apart() {
    let mut world = new_world();
    assert_eq!(world.init_state(ROOT, None, None, true), Ok(()));
    assert!(!state_changed(GlobalState::new(&world, ROOT)));
    assert_eq!(world.state_target(ROOT, None, Some(Level(1))), Ok(()));
    assert!(!state_changed(GlobalState::new(&world, ROOT)));
    world.run_schedule(StateTransition);
    assert!(state_changed(GlobalState::new(&world, ROOT)));
    world.run_schedule(StateTransition);
    assert!(!state_changed(GlobalState::new(&world, ROOT)));
}

#[test]
fn state_changed_to_asks_for_both() {
    let mut world = new_world();
    assert_eq!(world.init_state(ROOT, None, None, true), Ok(()));
    assert_eq!(world.state_target(ROOT, None, Some(Level(1))), Ok(()));
    assert!(!state_changed_to(Some(Level(1)))(GlobalState::new(&world, ROOT)));
    assert!(!state_changed_to(None::<Level>)(GlobalState::new(&world, ROOT)));
    world.run_schedule(StateTransition);
    assert!(state_changed_to(Some(Level(1)))(GlobalState::new(&world, ROOT)));
    assert!(!state_changed_to(Some(Level(2)))(GlobalState::new(&world, ROOT)));
    assert!(!state_changed_to(None::<Level>)(GlobalState::new(&world, ROOT)));
    world.run_schedule(StateTransition);
    // Still in the state, but it did not change in this tick.
    assert!(!state_changed_to(Some(Level(1)))(GlobalState::new(&world, ROOT)));
    assert!(in_state(Some(Level(1)))(GlobalState::new(&world, ROOT)));
    // A state initialized as updated counts as changed.
    assert_eq!(world.init_state(OTHER, None, Some(Level(3)), false), Ok(()));
    assert!(state_changed(GlobalState::new(&world, OTHER)));
    assert!(state_changed_to(Some(Level(3)))(GlobalState::new(&world, OTHER)));
}
