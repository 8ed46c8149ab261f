//! Hierarchical, reactive states.
//!
//! An application declares its state types in a [`graph::StateGraph`]: some
//! are driven by hand, others are computed from the states they depend on,
//! others again take a request only while their dependencies let them. The
//! records of the states live in a [`world::World`], on the entity that owns
//! them or, for the global states, on the one entity that carries their
//! marker.
//!
//! Once per frame [`world::World::run_schedule`] takes the states through a
//! transition. It re-evaluates the states whose target holds a request or
//! whose dependencies changed, root states first, and then hands back the
//! events to dispatch: the exits from leaf states to root states, then the
//! enters from root states to leaf states.
//!
//! What every operation does is stated in its contract and proved. The
//! modules [`data`], [`state`] and [`transitions`] also hold what follows
//! from the contracts for the states as a whole: that a reentry keeps the
//! previous value, that a state without cause to change is left alone, that
//! registration is idempotent, and that the events come in the order of the
//! hierarchy.

pub mod commands;
pub mod data;
pub mod error;
pub mod graph;
pub mod schedule;
pub mod state;
pub mod state_set;
pub mod transitions;
pub mod util;
pub mod world;
