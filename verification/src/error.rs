//! What can go wrong when states are registered, initialized or targeted.

use vstd::prelude::*;

verus! {

/// Why an operation on the states of a world was abandoned.
///
/// None of these is fatal: the world is left as it was found, and the remedy
/// is for the caller to fix the sequence of its calls.
#[derive(Debug, Clone, Copy, PartialEq, Eq, Structural)]
pub enum StateError {
    /// The state type is not declared in the graph of the world.
    UnknownState,
    /// The entity was not spawned in the world.
    UnknownEntity,
    /// The state type is registered already: the additional configuration is
    /// ignored.
    DuplicateRegistration,
    /// More than one entity marks the registration of the state type.
    MultipleRegisteredMarkers,
    /// More than one entity carries the marker of the global states.
    MultipleGlobalMarkers,
    /// The owner has no record of the state type.
    MissingRecord,
    /// The owner has a record of the state type already: the first record is
    /// kept.
    AlreadyInitialized,
}

} // verus!
