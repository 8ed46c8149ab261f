//! Sets of state types that a state depends on.

use vstd::prelude::*;
use crate::data::{StateData, StateValue};
use crate::graph::StateId;

verus! {

/// What a state's update rule is shown of its dependencies: the record of
/// each, in the order in which the state type declared them.
pub type StateDependencies<'a, S> = Vec<&'a StateData<S>>;

/// Set of states used for dependencies.
///
/// No state type, one state type, a tuple of state types or a vector of any
/// number of them can stand for the dependencies of a state type.
pub trait StateSet {
    /// The state types of the set, in the order in which their records are
    /// shown to an update rule.
    spec fn members(&self) -> Seq<StateId>;

    /// The state types of the set.
    fn to_vec(&self) -> (members: Vec<StateId>)
        ensures
            members@ == self.members(),
    ;
}

impl StateSet for () {
    open spec fn members(&self) -> Seq<StateId> {
        Seq::empty()
    }

    fn to_vec(&self) -> (members: Vec<StateId>) {
        Vec::new()
    }
}

impl StateSet for StateId {
    open spec fn members(&self) -> Seq<StateId> {
        seq![*self]
    }

    fn to_vec(&self) -> (members: Vec<StateId>) {
        let mut members = Vec::new();
        members.push(*self);
        members
    }
}

impl StateSet for (StateId, StateId) {
    open spec fn members(&self) -> Seq<StateId> {
        seq![self.0, self.1]
    }

    fn to_vec(&self) -> (members: Vec<StateId>) {
        let mut members = Vec::new();
        members.push(self.0);
        members.push(self.1);
        members
    }
}

impl StateSet for (StateId, StateId, StateId) {
    open spec fn members(&self) -> Seq<StateId> {
        seq![self.0, self.1, self.2]
    }

    fn to_vec(&self) -> (members: Vec<StateId>) {
        let mut members = Vec::new();
        members.push(self.0);
        members.push(self.1);
        members.push(self.2);
        members
    }
}

impl StateSet for Vec<StateId> {
    open spec fn members(&self) -> Seq<StateId> {
        self@
    }

    fn to_vec(&self) -> (members: Vec<StateId>) {
        let mut members = Vec::new();
        let mut i: usize = 0;
        while i < self.len()
            invariant
                i <= self@.len(),
                members@ == self@.take(i as int),
            decreases self@.len() - i,
        {
            members.push(self[i]);
            proof {
                assert(self@.take(i + 1) == self@.take(i as int).push(self@[i as int]));
            }
            i += 1;
        }
        proof {
            assert(self@.take(self@.len() as int) == self@);
        }
        members
    }
}

/// The records that `shown` refers to.
pub open spec fn records<S: StateValue>(shown: Seq<&StateData<S>>) -> Seq<StateData<S>> {
    Seq::new(shown.len(), |i: int| *shown[i])
}

/// Whether any of the records was updated in the current transition.
pub open spec fn any_updated<S: StateValue>(dependencies: Seq<StateData<S>>) -> bool {
    exists|i: int| 0 <= i < dependencies.len() && (#[trigger] dependencies[i]).is_updated()
}

/// Whether any of the dependencies changed.
pub fn is_changed<S: StateValue>(dependencies: &StateDependencies<'_, S>) -> (changed: bool)
    ensures
        changed == any_updated(records(dependencies@)),
{
    let mut i: usize = 0;
    while i < dependencies.len()
        invariant
            i <= dependencies@.len(),
            forall|j: int| 0 <= j < i ==> !(#[trigger] dependencies@[j]).is_updated(),
        decreases dependencies@.len() - i,
    {
        if dependencies[i].is_updated() {
            assert(records(dependencies@)[i as int].is_updated());
            return true;
        }
        i += 1;
    }
    proof {
        assert forall|j: int| 0 <= j < dependencies@.len() implies !(#[trigger] records(
            dependencies@,
        )[j]).is_updated() by {
            assert(!dependencies@[j].is_updated());
        }
    }
    false
}

} // verus!
