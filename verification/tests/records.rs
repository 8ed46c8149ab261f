use bevy_state::commands::StatesExt;
use bevy_state::data::{GlobalStateMarker, RegisteredState, StateData, StateTarget, StateUpdate, StateValue};
use bevy_state::graph::{StateGraph, StateId};
use bevy_state::state::{State, StateTransition};
use bevy_state::state_set::{is_changed, StateDependencies};
use bevy_state::transitions::StateTransitionsConfig;
use bevy_state::world::World;

/// A value of a state in these tests: a plain number.
#[derive(Clone, Debug, PartialEq)]
struct Level(u32);

const ROOT: StateId = StateId(0);
const LEAF: StateId = StateId(1);

impl StateValue for Level {
    type Target = StateUpdate<Level>;
}

impl State for Level {
    fn update(
        kind: StateId,
        state: &StateData<Self>,
        dependencies: &StateDependencies<'_, Self>,
    ) -> StateUpdate<Self> {
        if kind == ROOT {
            state.target().clone()
        } else {
            // The leaf is one above the root while the root is enabled.
            match dependencies[0].current() {
                Some(Level(root)) => StateUpdate::Enable(Level(root + 1)),
                None => StateUpdate::Disable,
            }
        }
    }
}

fn world_with_root_and_leaf() -> World<Level> {
    let mut graph = StateGraph::new();
    assert_eq!(graph.declare(()), Ok(ROOT));
    assert_eq!(graph.declare(ROOT), Ok(LEAF));
    let mut world = World::new(graph);
    assert_eq!(world.register_state(LEAF, StateTransitionsConfig::default()), Ok(()));
    assert_eq!(world.init_state(LEAF, None, None, true), Ok(()));
    world
}

fn root(world: &World<Level>) -> &StateData<Level> {
    world.get(ROOT, world.single_global().unwrap()).unwrap()
}

fn leaf(world: &World<Level>) -> &StateData<Level> {
    world.get(LEAF, world.single_global().unwrap()).unwrap()
}

#[test]
fn state_update_is_something() {
    assert!(!StateUpdate::<u8>::Nothing.is_something());
    assert!(StateUpdate::<u8>::Disable.is_something());
    assert!(StateUpdate::Enable(7u8).is_something());
}

#[test]
fn state_update_as_options() {
    assert_eq!(StateUpdate::<u8>::Nothing.as_options(), None);
    assert_eq!(StateUpdate::<u8>::Disable.as_options(), Some(None));
    assert_eq!(StateUpdate::Enable(7u8).as_options(), Some(Some(7)));
}

#[test]
fn state_update_as_ref() {
    let update = StateUpdate::Enable(7u8);
    assert_eq!(update.as_ref().as_options(), Some(Some(&7)));
    assert_eq!(StateUpdate::<u8>::Disable.as_ref().as_options(), Some(None));
    assert_eq!(StateUpdate::<u8>::Nothing.as_ref().as_options(), None);
    // The owned request is untouched.
    assert_eq!(update.as_options(), Some(Some(7)));
}

#[test]
fn state_update_take_leaves_nothing() {
    let mut update = StateUpdate::Enable(7u8);
    let taken = update.take();
    assert_eq!(taken.as_options(), Some(Some(7)));
    assert_eq!(update.as_options(), None);
    let mut disable = StateUpdate::<u8>::Disable;
    assert_eq!(disable.take().as_options(), Some(None));
    assert!(!disable.is_something());
}

#[test]
fn state_update_default_and_clone() {
    assert_eq!(StateUpdate::<u8>::default().as_options(), None);
    assert_eq!(StateUpdate::Enable(3u8).clone().as_options(), Some(Some(3)));
    assert_eq!(StateUpdate::<u8>::Disable.clone().as_options(), Some(None));
    assert_eq!(StateUpdate::<u8>::Nothing.clone().as_options(), None);
}

#[test]
fn update_target_asks_until_reset() {
    let mut target = StateUpdate::Enable(Level(1));
    assert!(target.should_update());
    target.reset();
    assert!(!target.should_update());
    assert_eq!(target.as_options(), None);
    let mut disable = StateUpdate::<Level>::Disable;
    assert!(disable.should_update());
    disable.reset();
    assert!(!disable.should_update());
    assert!(!StateUpdate::<Level>::Nothing.should_update());
}

#[test]
fn unit_target_never_asks() {
    let mut target = ();
    assert!(!target.should_update());
    target.reset();
    assert!(!target.should_update());
}

#[test]
fn markers_are_plain_values() {
    assert_eq!(GlobalStateMarker, GlobalStateMarker);
    assert_eq!(RegisteredState::new(LEAF).state, LEAF);
    assert_ne!(RegisteredState::new(LEAF), RegisteredState::new(ROOT));
}

#[test]
fn new_record_holds_the_initial_value() {
    let data = StateData::<Level>::new(Some(Level(4)), true);
    assert_eq!(data.current(), Some(&Level(4)));
    assert_eq!(data.previous(), None);
    assert_eq!(data.reentrant_previous(), None);
    assert!(!data.is_reentrant());
    assert!(!data.is_updated());
    assert!(!data.target().is_something());
}

#[test]
fn new_record_counts_as_updated_unless_suppressed() {
    assert!(StateData::<Level>::new(None, false).is_updated());
    assert!(!StateData::<Level>::new(None, true).is_updated());
    assert!(StateData::<Level>::new(Some(Level(1)), false).is_updated());
}

#[test]
fn default_record_is_disabled_and_untouched() {
    let data = StateData::<Level>::default();
    assert_eq!(data.current(), None);
    assert_eq!(data.previous(), None);
    assert!(!data.is_reentrant());
    assert!(!data.is_updated());
    assert!(!data.target().is_something());
}

#[test]
fn target_mut_stages_a_request() {
    let mut data = StateData::<Level>::new(Some(Level(4)), true);
    *data.target_mut() = StateUpdate::Enable(Level(5));
    assert_eq!(data.target().as_ref().as_options(), Some(Some(&Level(5))));
    // Staging changes nothing else.
    assert_eq!(data.current(), Some(&Level(4)));
    assert_eq!(data.previous(), None);
    assert!(!data.is_updated());
    assert_eq!(data.target_mut().take().as_options(), Some(Some(Level(5))));
    assert!(!data.target().is_something());
}

#[test]
fn is_changed_is_the_or_of_the_update_marks() {
    let touched = StateData::<Level>::new(None, false);
    let untouched = StateData::<Level>::new(None, true);
    let none: StateDependencies<'_, Level> = vec![];
    assert!(!is_changed(&none));
    assert!(is_changed(&vec![&touched]));
    assert!(!is_changed(&vec![&untouched]));
    assert!(is_changed(&vec![&untouched, &touched]));
    assert!(is_changed(&vec![&touched, &untouched, &untouched]));
    assert!(!is_changed(&vec![&untouched, &untouched, &untouched]));
}

#[test]
fn reentry_preserves_previous() {
    let mut world = world_with_root_and_leaf();
    assert_eq!(world.state_target(ROOT, None, Some(Level(1))), Ok(()));
    world.run_schedule(StateTransition);
    assert_eq!(world.state_target(ROOT, None, Some(Level(2))), Ok(()));
    world.run_schedule(StateTransition);
    assert_eq!(root(&world).current(), Some(&Level(2)));
    assert_eq!(root(&world).previous(), Some(&Level(1)));
    assert!(!root(&world).is_reentrant());

    // The same value once more: a reentry.
    assert_eq!(world.state_target(ROOT, None, Some(Level(2))), Ok(()));
    world.run_schedule(StateTransition);
    assert_eq!(root(&world).current(), Some(&Level(2)));
    assert_eq!(root(&world).previous(), Some(&Level(1)));
    assert_eq!(root(&world).reentrant_previous(), Some(&Level(2)));
    assert!(root(&world).is_reentrant());
    assert!(root(&world).is_updated());

    // And again.
    assert_eq!(world.state_target(ROOT, None, Some(Level(2))), Ok(()));
    world.run_schedule(StateTransition);
    assert_eq!(root(&world).previous(), Some(&Level(1)));
    assert!(root(&world).is_reentrant());
}

#[test]
fn reentry_of_a_disabled_state_preserves_previous() {
    let mut world = world_with_root_and_leaf();
    assert_eq!(world.state_target(ROOT, None, None), Ok(()));
    world.run_schedule(StateTransition);
    assert_eq!(root(&world).current(), None);
    assert_eq!(root(&world).previous(), None);
    assert!(root(&world).is_reentrant());
    assert!(root(&world).is_updated());
}

#[test]
fn distinct_transition_updates_previous() {
    let mut world = world_with_root_and_leaf();
    assert_eq!(world.state_target(ROOT, None, Some(Level(1))), Ok(()));
    world.run_schedule(StateTransition);
    assert_eq!(root(&world).current(), Some(&Level(1)));
    assert_eq!(root(&world).previous(), None);
    assert!(!root(&world).is_reentrant());

    assert_eq!(world.state_target(ROOT, None, Some(Level(2))), Ok(()));
    world.run_schedule(StateTransition);
    assert_eq!(root(&world).current(), Some(&Level(2)));
    assert_eq!(root(&world).previous(), Some(&Level(1)));
    assert_eq!(root(&world).reentrant_previous(), Some(&Level(1)));
    assert!(!root(&world).is_reentrant());

    // To absent, and back.
    assert_eq!(world.state_target(ROOT, None, None), Ok(()));
    world.run_schedule(StateTransition);
    assert_eq!(root(&world).current(), None);
    assert_eq!(root(&world).previous(), Some(&Level(2)));
    assert!(!root(&world).is_reentrant());

    assert_eq!(world.state_target(ROOT, None, Some(Level(3))), Ok(()));
    world.run_schedule(StateTransition);
    assert_eq!(root(&world).current(), Some(&Level(3)));
    assert_eq!(root(&world).previous(), None);
    assert!(!root(&world).is_reentrant());
}

#[test]
fn a_request_is_consumed_by_the_transition() {
    let mut world = world_with_root_and_leaf();
    assert_eq!(world.state_target(ROOT, None, Some(Level(1))), Ok(()));
    assert!(root(&world).target().is_something());
    world.run_schedule(StateTransition);
    assert!(!root(&world).target().is_something());
    assert!(root(&world).is_updated());
    // Nothing is staged: the next transition leaves the state alone.
    world.run_schedule(StateTransition);
    assert!(!root(&world).is_updated());
    assert_eq!(root(&world).current(), Some(&Level(1)));
}

#[test]
fn the_last_request_of_a_tick_wins() {
    let mut world = world_with_root_and_leaf();
    assert_eq!(world.state_target(ROOT, None, Some(Level(1))), Ok(()));
    assert_eq!(world.state_target(ROOT, None, None), Ok(()));
    assert_eq!(world.state_target(ROOT, None, Some(Level(9))), Ok(()));
    world.run_schedule(StateTransition);
    assert_eq!(root(&world).current(), Some(&Level(9)));
    assert_eq!(root(&world).previous(), None);
}

#[test]
fn computed_state_follows_its_dependency_in_the_same_tick() {
    let mut world = world_with_root_and_leaf();
    assert_eq!(world.state_target(ROOT, None, Some(Level(10))), Ok(()));
    world.run_schedule(StateTransition);
    assert_eq!(leaf(&world).current(), Some(&Level(11)));
    assert_eq!(world.state_target(ROOT, None, Some(Level(20))), Ok(()));
    world.run_schedule(StateTransition);
    assert_eq!(leaf(&world).current(), Some(&Level(21)));
    assert_eq!(leaf(&world).previous(), Some(&Level(11)));
    assert_eq!(world.state_target(ROOT, None, None), Ok(()));
    world.run_schedule(StateTransition);
    assert_eq!(leaf(&world).current(), None);
    assert_eq!(leaf(&world).previous(), Some(&Level(21)));
}

#[test]
fn computed_state_is_left_alone_while_its_dependency_is() {
    let mut world = world_with_root_and_leaf();
    assert_eq!(world.state_target(ROOT, None, Some(Level(10))), Ok(()));
    world.run_schedule(StateTransition);
    assert!(leaf(&world).is_updated());

    let triggered = world.run_schedule(StateTransition);
    assert!(triggered.is_empty());
    assert!(!root(&world).is_updated());
    assert!(!leaf(&world).is_updated());
    assert_eq!(leaf(&world).current(), Some(&Level(11)));
    assert_eq!(leaf(&world).previous(), None);
    assert!(!leaf(&world).is_reentrant());
}

#[test]
fn a_reentered_dependency_reevaluates_its_dependents() {
    let mut world = world_with_root_and_leaf();
    assert_eq!(world.state_target(ROOT, None, Some(Level(10))), Ok(()));
    world.run_schedule(StateTransition);
    assert_eq!(world.state_target(ROOT, None, Some(Level(10))), Ok(()));
    let triggered = world.run_schedule(StateTransition);
    // Both were updated, both to the value they held: no exit, no enter.
    assert!(triggered.is_empty());
    assert!(root(&world).is_updated() && root(&world).is_reentrant());
    assert!(leaf(&world).is_updated() && leaf(&world).is_reentrant());
    assert_eq!(leaf(&world).current(), Some(&Level(11)));
}
