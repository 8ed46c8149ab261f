use bevy_state::commands::StatesExt;
use bevy_state::data::{RegisteredState, StateData, StateUpdate, StateValue};
use bevy_state::graph::{StateGraph, StateId};
use bevy_state::state::{State, StateTransition};
use bevy_state::state_set::StateDependencies;
use bevy_state::transitions::StateTransitionsConfig;
use bevy_state::world::World;

/// The value of states that nothing can be asked of: they have the unit target.
#[derive(Clone, Debug, PartialEq)]
struct Pure(u32);

const SOURCE: StateId = StateId(0);
const DOUBLE: StateId = StateId(1);

impl StateValue for Pure {
    type Target = ();
}

impl State for Pure {
    fn update(
        kind: StateId,
        state: &StateData<Self>,
        dependencies: &StateDependencies<'_, Self>,
    ) -> StateUpdate<Self> {
        if kind == SOURCE {
            // Counts the times it is asked, which should be never.
            match state.current() {
                Some(Pure(value)) => StateUpdate::Enable(Pure(value + 1000)),
                None => StateUpdate::Enable(Pure(1000)),
            }
        } else {
            match dependencies[0].current() {
                Some(Pure(value)) => StateUpdate::Enable(Pure(2 * value)),
                None => StateUpdate::Disable,
            }
        }
    }
}

fn new_world() -> World<Pure> {
    let mut graph = StateGraph::new();
    assert_eq!(graph.declare(()), Ok(SOURCE));
    assert_eq!(graph.declare(SOURCE), Ok(DOUBLE));
    World::new(graph)
}

#[test]
fn computed_state_purity() {
    let mut world = new_world();
    assert_eq!(world.register_state(DOUBLE, StateTransitionsConfig::default()), Ok(()));
    let entity = world.spawn_empty();
    assert_eq!(world.init_state(SOURCE, Some(entity), Some(Pure(4)), true), Ok(()));
    assert_eq!(world.init_state(DOUBLE, Some(entity), Some(Pure(7)), true), Ok(()));
    for _ in 0..3 {
        let triggered = world.run_schedule(StateTransition);
        assert!(triggered.is_empty());
        // Neither rule was asked: the values are the initial ones.
        let source = world.get(SOURCE, entity).unwrap();
        assert_eq!(source.current(), Some(&Pure(4)));
        assert!(!source.is_updated());
        let double = world.get(DOUBLE, entity).unwrap();
        assert_eq!(double.current(), Some(&Pure(7)));
        assert_eq!(double.previous(), None);
        assert!(!double.is_updated());
        assert!(!double.is_reentrant());
    }
}

#[test]
fn an_initial_update_is_cleared_by_the_update_system() {
    let mut world = new_world();
    assert_eq!(world.register_state(DOUBLE, StateTransitionsConfig::default()), Ok(()));
    let entity = world.spawn_empty();
    assert_eq!(world.init_state(SOURCE, Some(entity), Some(Pure(4)), false), Ok(()));
    assert_eq!(world.init_state(DOUBLE, Some(entity), None, true), Ok(()));
    assert!(world.get(SOURCE, entity).unwrap().is_updated());
    world.run_schedule(StateTransition);
    assert!(!world.get(SOURCE, entity).unwrap().is_updated());
    assert_eq!(world.get(SOURCE, entity).unwrap().current(), Some(&Pure(4)));
    assert_eq!(world.get(DOUBLE, entity).unwrap().current(), None);
}

#[test]
fn computed_state_follows_a_dependency_that_counts_as_updated() {
    let mut world = new_world();
    // The source is marked as registered, so that it gets no update system:
    // its record keeps the mark that it is initialized with.
    world.spawn_registered(RegisteredState::new(SOURCE));
    assert_eq!(world.register_state(DOUBLE, StateTransitionsConfig::default()), Ok(()));
    let entity = world.spawn_empty();
    assert_eq!(world.init_state(SOURCE, Some(entity), Some(Pure(4)), false), Ok(()));
    assert_eq!(world.init_state(DOUBLE, Some(entity), None, true), Ok(()));
    let triggered = world.run_schedule(StateTransition);
    assert_eq!(triggered.len(), 2);
    assert_eq!(world.get(SOURCE, entity).unwrap().current(), Some(&Pure(4)));
    let double = world.get(DOUBLE, entity).unwrap();
    assert_eq!(double.current(), Some(&Pure(8)));
    assert!(double.is_updated());
    // The next evaluation comes to the same value: a reentry, no events.
    let triggered = world.run_schedule(StateTransition);
    assert!(triggered.is_empty());
    let double = world.get(DOUBLE, entity).unwrap();
    assert_eq!(double.current(), Some(&Pure(8)));
    assert!(double.is_updated() && double.is_reentrant());
}
