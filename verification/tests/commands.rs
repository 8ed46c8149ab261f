use bevy_state::commands::{InitializeStateCommand, SetStateTargetCommand, StatesExt};
use bevy_state::data::{GlobalStateMarker, StateData, StateUpdate, StateValue};
use bevy_state::error::StateError;
use bevy_state::graph::{StateGraph, StateId};
use bevy_state::state::{update_system, State, StateTransition};
use bevy_state::state_set::StateDependencies;
use bevy_state::transitions::StateTransitionsConfig;
use bevy_state::world::{Entity, QuerySingleError, World};

/// A value of a state in these tests: a plain number.
#[derive(Clone, Debug, PartialEq)]
struct Level(u32);

const ROOT: StateId = StateId(0);
const MID: StateId = StateId(1);
const LEAF: StateId = StateId(2);
const OTHER: StateId = StateId(3);

impl StateValue for Level {
    type Target = StateUpdate<Level>;
}

impl State for Level {
    fn update(
        kind: StateId,
        state: &StateData<Self>,
        dependencies: &StateDependencies<'_, Self>,
    ) -> StateUpdate<Self> {
        if kind == ROOT || kind == OTHER {
            state.target().clone()
        } else {
            match dependencies[0].current() {
                Some(Level(below)) => StateUpdate::Enable(Level(below + 1)),
                None => StateUpdate::Disable,
            }
        }
    }
}

fn new_world() -> World<Level> {
    let mut graph = StateGraph::new();
    assert_eq!(graph.declare(()), Ok(ROOT));
    assert_eq!(graph.declare(ROOT), Ok(MID));
    assert_eq!(graph.declare(MID), Ok(LEAF));
    assert_eq!(graph.declare(()), Ok(OTHER));
    World::new(graph)
}

#[test]
fn spawned_entities_are_named_by_position() {
    let mut world = new_world();
    assert_eq!(world.spawn_empty(), Entity(0));
    assert_eq!(world.spawn(GlobalStateMarker), Entity(1));
    assert_eq!(world.spawn_empty(), Entity(2));
    assert_eq!(world.len(), 3);
    assert!(!world.is_global(Entity(0)));
    assert!(world.is_global(Entity(1)));
    assert!(!world.is_global(Entity(2)));
    assert!(!world.is_global(Entity(3)));
    assert_eq!(world.single_global(), Ok(Entity(1)));
    // A new entity carries no record.
    assert!(world.get(ROOT, Entity(0)).is_none());
    assert!(world.get(ROOT, Entity(5)).is_none());
    assert!(world.get(StateId(9), Entity(0)).is_none());
}

#[test]
fn init_global_state_spawns_the_global_entity_once() {
    let mut world = new_world();
    assert_eq!(world.single_global(), Err(QuerySingleError::NoEntities));
    assert_eq!(world.init_state(ROOT, None, Some(Level(1)), true), Ok(()));
    assert_eq!(world.single_global(), Ok(Entity(0)));
    assert_eq!(world.init_state(OTHER, None, None, true), Ok(()));
    assert_eq!(world.single_global(), Ok(Entity(0)));
    assert_eq!(world.len(), 1);
    assert_eq!(world.get(ROOT, Entity(0)).unwrap().current(), Some(&Level(1)));
    assert_eq!(world.get(OTHER, Entity(0)).unwrap().current(), None);
    assert!(world.get(MID, Entity(0)).is_none());
}

#[test]
fn init_state_keeps_to_its_arguments() {
    let mut world = new_world();
    let entity = world.spawn_empty();
    assert_eq!(world.init_state(ROOT, Some(entity), Some(Level(7)), false), Ok(()));
    let data = world.get(ROOT, entity).unwrap();
    assert_eq!(data.current(), Some(&Level(7)));
    assert_eq!(data.previous(), None);
    assert!(data.is_updated());
    assert!(!data.is_reentrant());
    assert!(!data.target().is_something());
    // It is no global state.
    assert_eq!(world.single_global(), Err(QuerySingleError::NoEntities));
}

#[test]
fn init_state_adds_what_the_state_depends_on() {
    let mut world = new_world();
    let entity = world.spawn_empty();
    assert_eq!(world.init_state(LEAF, Some(entity), Some(Level(3)), false), Ok(()));
    for kind in [ROOT, MID] {
        let data = world.get(kind, entity).unwrap();
        assert_eq!(data.current(), None);
        assert_eq!(data.previous(), None);
        assert!(!data.is_updated());
        assert!(!data.is_reentrant());
        assert!(!data.target().is_something());
    }
    assert!(world.get(OTHER, entity).is_none());
    assert_eq!(world.get(LEAF, entity).unwrap().current(), Some(&Level(3)));
}

#[test]
fn init_state_keeps_the_records_that_are_there() {
    let mut world = new_world();
    let entity = world.spawn_empty();
    assert_eq!(world.init_state(ROOT, Some(entity), Some(Level(1)), false), Ok(()));
    assert_eq!(world.init_state(LEAF, Some(entity), None, true), Ok(()));
    let root = world.get(ROOT, entity).unwrap();
    assert_eq!(root.current(), Some(&Level(1)));
    assert!(root.is_updated());
    assert_eq!(world.get(MID, entity).unwrap().current(), None);
}

#[test]
fn init_state_twice_keeps_the_first_record() {
    let mut world = new_world();
    let entity = world.spawn_empty();
    assert_eq!(world.init_state(ROOT, Some(entity), Some(Level(1)), true), Ok(()));
    assert_eq!(
        world.init_state(ROOT, Some(entity), Some(Level(2)), false),
        Err(StateError::AlreadyInitialized)
    );
    let data = world.get(ROOT, entity).unwrap();
    assert_eq!(data.current(), Some(&Level(1)));
    assert!(!data.is_updated());
    // A record that came with a dependent counts too.
    assert_eq!(world.init_state(LEAF, None, None, true), Ok(()));
    assert_eq!(
        world.init_state(MID, None, Some(Level(5)), true),
        Err(StateError::AlreadyInitialized)
    );
    assert_eq!(world.get(MID, Entity(1)).unwrap().current(), None);
}

#[test]
fn init_state_of_an_undeclared_state_fails() {
    let mut world = new_world();
    assert_eq!(world.init_state(StateId(4), None, None, true), Err(StateError::UnknownState));
    assert_eq!(world.len(), 0);
}

#[test]
fn init_state_on_an_unknown_entity_fails() {
    let mut world = new_world();
    world.spawn_empty();
    assert_eq!(
        world.init_state(ROOT, Some(Entity(1)), None, true),
        Err(StateError::UnknownEntity)
    );
    assert_eq!(world.len(), 1);
}

#[test]
fn init_state_fails_with_several_global_entities() {
    let mut world = new_world();
    world.spawn(GlobalStateMarker);
    world.spawn(GlobalStateMarker);
    assert_eq!(world.single_global(), Err(QuerySingleError::MultipleEntities));
    assert_eq!(
        world.init_state(ROOT, None, None, true),
        Err(StateError::MultipleGlobalMarkers)
    );
    assert_eq!(world.len(), 2);
    assert!(world.get(ROOT, Entity(0)).is_none());
    assert!(world.get(ROOT, Entity(1)).is_none());
    // A local state is not concerned.
    assert_eq!(world.init_state(ROOT, Some(Entity(1)), None, true), Ok(()));
}

#[test]
fn state_target_stages_a_request() {
    let mut world = new_world();
    assert_eq!(world.init_state(ROOT, None, Some(Level(1)), true), Ok(()));
    assert_eq!(world.state_target(ROOT, None, Some(Level(2))), Ok(()));
    let data = world.get(ROOT, Entity(0)).unwrap();
    assert_eq!(data.target().as_ref().as_options(), Some(Some(&Level(2))));
    // Nothing has happened to the state yet.
    assert_eq!(data.current(), Some(&Level(1)));
    assert!(!data.is_updated());
    assert_eq!(world.state_target(ROOT, None, None), Ok(()));
    let data = world.get(ROOT, Entity(0)).unwrap();
    assert_eq!(data.target().as_ref().as_options(), Some(None));
}

#[test]
fn state_target_without_a_record_fails() {
    let mut world = new_world();
    // No global entity at all.
    assert_eq!(
        world.state_target(ROOT, None, Some(Level(1))),
        Err(StateError::MissingRecord)
    );
    assert_eq!(world.len(), 0);
    // A global entity without the record.
    assert_eq!(world.init_state(OTHER, None, None, true), Ok(()));
    assert_eq!(
        world.state_target(ROOT, None, Some(Level(1))),
        Err(StateError::MissingRecord)
    );
    // An entity without the record, and no entity.
    let entity = world.spawn_empty();
    assert_eq!(
        world.state_target(ROOT, Some(entity), Some(Level(1))),
        Err(StateError::MissingRecord)
    );
    assert_eq!(
        world.state_target(ROOT, Some(Entity(17)), Some(Level(1))),
        Err(StateError::MissingRecord)
    );
}

#[test]
fn state_target_of_an_undeclared_state_fails() {
    let mut world = new_world();
    assert_eq!(world.state_target(StateId(4), None, None), Err(StateError::UnknownState));
}

#[test]
fn state_target_fails_with_several_global_entities() {
    let mut world = new_world();
    assert_eq!(world.init_state(ROOT, None, None, true), Ok(()));
    world.spawn(GlobalStateMarker);
    assert_eq!(
        world.state_target(ROOT, None, Some(Level(1))),
        Err(StateError::MultipleGlobalMarkers)
    );
    assert!(!world.get(ROOT, Entity(0)).unwrap().target().is_something());
}

#[test]
fn commands_can_be_built_and_applied_later() {
    let mut world = new_world();
    let init = InitializeStateCommand::new(ROOT, None, Some(Level(1)), true);
    let target = SetStateTargetCommand::new(ROOT, None, Some(Level(2)));
    assert_eq!(init.kind, ROOT);
    assert_eq!(init.local, None);
    assert_eq!(init.initial, Some(Level(1)));
    assert!(init.suppress_initial_update);
    assert_eq!(target.target, Some(Level(2)));
    assert_eq!(init.apply(&mut world), Ok(()));
    assert_eq!(target.apply(&mut world), Ok(()));
    assert_eq!(world.register_state(ROOT, StateTransitionsConfig::empty()), Ok(()));
    world.run_schedule(StateTransition);
    assert_eq!(world.get(ROOT, Entity(0)).unwrap().current(), Some(&Level(2)));
}

#[test]
fn global_and_local_states_do_not_interact() {
    let mut world = new_world();
    assert_eq!(world.register_state(MID, StateTransitionsConfig::empty()), Ok(()));
    let first = world.spawn_empty();
    let second = world.spawn_empty();
    assert_eq!(world.init_state(MID, None, None, true), Ok(()));
    assert_eq!(world.init_state(MID, Some(first), None, true), Ok(()));
    assert_eq!(world.init_state(MID, Some(second), None, true), Ok(()));
    let global = world.single_global().unwrap();
    assert_eq!(world.state_target(ROOT, None, Some(Level(10))), Ok(()));
    assert_eq!(world.state_target(ROOT, Some(second), Some(Level(20))), Ok(()));
    world.run_schedule(StateTransition);
    assert_eq!(world.get(MID, global).unwrap().current(), Some(&Level(11)));
    assert_eq!(world.get(MID, first).unwrap().current(), None);
    assert_eq!(world.get(MID, second).unwrap().current(), Some(&Level(21)));
    assert!(!world.get(MID, first).unwrap().is_updated());
    assert!(world.get(MID, second).unwrap().is_updated());
}

#[test]
fn a_state_that_is_not_registered_is_never_updated() {
    let mut world = new_world();
    assert_eq!(world.register_state(OTHER, StateTransitionsConfig::default()), Ok(()));
    assert_eq!(world.init_state(ROOT, None, None, true), Ok(()));
    assert_eq!(world.state_target(ROOT, None, Some(Level(1))), Ok(()));
    let triggered = world.run_schedule(StateTransition);
    assert!(triggered.is_empty());
    let data = world.get(ROOT, world.single_global().unwrap()).unwrap();
    assert_eq!(data.current(), None);
    assert!(data.target().is_something());
}

#[test]
fn update_system_updates_one_state_type() {
    let mut world = new_world();
    assert_eq!(world.init_state(LEAF, None, None, true), Ok(()));
    let global = world.single_global().unwrap();
    assert_eq!(world.state_target(ROOT, None, Some(Level(1))), Ok(()));
    update_system(&mut world, ROOT);
    assert_eq!(world.get(ROOT, global).unwrap().current(), Some(&Level(1)));
    assert_eq!(world.get(MID, global).unwrap().current(), None);
    update_system(&mut world, LEAF);
    // The leaf looks at the state in the middle, which was not updated.
    assert_eq!(world.get(LEAF, global).unwrap().current(), None);
    assert!(!world.get(LEAF, global).unwrap().is_updated());
    update_system(&mut world, MID);
    assert_eq!(world.get(MID, global).unwrap().current(), Some(&Level(2)));
    update_system(&mut world, LEAF);
    assert_eq!(world.get(LEAF, global).unwrap().current(), Some(&Level(3)));
    assert!(world.get(LEAF, global).unwrap().is_updated());
}

#[test]
fn a_record_without_its_dependencies_is_skipped() {
    let mut graph = StateGraph::new();
    assert_eq!(graph.declare(()), Ok(ROOT));
    assert_eq!(graph.declare(ROOT), Ok(MID));
    let mut world: World<Level> = World::new(graph);
    let entity = world.spawn_empty();
    // Only the root on this entity: the state in the middle has nothing to update.
    assert_eq!(world.init_state(ROOT, Some(entity), Some(Level(1)), false), Ok(()));
    update_system(&mut world, MID);
    assert!(world.get(MID, entity).is_none());
    let root = world.get(ROOT, entity).unwrap();
    assert!(root.is_updated());
    assert_eq!(root.current(), Some(&Level(1)));
}

#[test]
fn a_removed_state_can_be_initialized_again() {
    let mut world = new_world();
    assert_eq!(world.register_state(MID, StateTransitionsConfig::empty()), Ok(()));
    let entity = world.spawn_empty();
    assert_eq!(world.init_state(MID, Some(entity), None, true), Ok(()));
    assert_eq!(world.state_target(ROOT, Some(entity), Some(Level(1))), Ok(()));
    world.run_schedule(StateTransition);
    assert_eq!(world.get(MID, entity).unwrap().current(), Some(&Level(2)));

    let removed = world.remove_state(ROOT, entity).unwrap();
    assert_eq!(removed.current(), Some(&Level(1)));
    assert!(world.get(ROOT, entity).is_none());
    assert!(world.remove_state(ROOT, entity).is_none());
    assert!(world.remove_state(ROOT, Entity(99)).is_none());
    assert!(world.remove_state(StateId(9), entity).is_none());
    // The dependent state stays, and is left alone while its dependency is missing.
    world.run_schedule(StateTransition);
    let mid = world.get(MID, entity).unwrap();
    assert_eq!(mid.current(), Some(&Level(2)));
    assert_eq!(
        world.state_target(ROOT, Some(entity), Some(Level(5))),
        Err(StateError::MissingRecord)
    );

    assert_eq!(world.init_state(ROOT, Some(entity), Some(Level(7)), false), Ok(()));
    assert_eq!(world.get(ROOT, entity).unwrap().current(), Some(&Level(7)));
    assert_eq!(world.state_target(ROOT, Some(entity), Some(Level(8))), Ok(()));
    world.run_schedule(StateTransition);
    assert_eq!(world.get(MID, entity).unwrap().current(), Some(&Level(9)));
}
