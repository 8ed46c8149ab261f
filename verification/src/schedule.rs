//! The systems of a state transition, in the order in which they run.

use vstd::prelude::*;
use crate::graph::StateId;
use crate::state::StateSystemSet;

verus! {

/// A system that announces the transitions of one state type.
#[derive(Debug, Clone, Copy, PartialEq, Eq, Structural)]
pub enum TransitionSystem {
    /// Announces exits, reentries left out.
    OnExit,
    /// Announces enters, reentries left out.
    OnEnter,
    /// Announces exits, reentries included.
    OnReexit,
    /// Announces enters, reentries included.
    OnReenter,
}

/// A piece of work that the transition schedule runs for one state type.
#[derive(Debug, Clone, Copy, PartialEq, Eq, Structural)]
pub enum StateSystem {
    /// Re-evaluates the records of the state type.
    Update,
    /// Announces what became of the records of the state type.
    Transition(TransitionSystem),
}

/// A system as the schedule holds it: the work, the state type it is done
/// for, and the set that places it among the other systems.
#[derive(Debug, Clone, Copy, PartialEq, Eq, Structural)]
pub struct ScheduledSystem {
    pub system: StateSystem,
    pub state: StateId,
    pub set: StateSystemSet,
}

impl ScheduledSystem {
    /// The hierarchy order that the set of the system places it at.
    pub open spec fn order(self) -> u32 {
        self.set.order()
    }
}

/// The three phases of a transition.
///
/// Updates run from root states to leaf states, exits from leaf states to
/// root states, enters from root states to leaf states again.
pub struct Schedule {
    pub(crate) updates: Vec<ScheduledSystem>,
    pub(crate) exits: Vec<ScheduledSystem>,
    pub(crate) enters: Vec<ScheduledSystem>,
}

/// What a [`Schedule`] holds.
pub struct ScheduleView {
    pub updates: Seq<ScheduledSystem>,
    pub exits: Seq<ScheduledSystem>,
    pub enters: Seq<ScheduledSystem>,
}

/// Whether a system of order `first` may run before one of order `second`
/// in a phase that runs leaves first (`descending`) or roots first.
pub open spec fn in_order(first: u32, second: u32, descending: bool) -> bool {
    if descending {
        first >= second
    } else {
        first <= second
    }
}

/// Whether a system of order `first` may run before one of order `second`.
pub fn runs_in_order(first: u32, second: u32, descending: bool) -> (ordered: bool)
    ensures
        ordered == in_order(first, second, descending),
{
    if descending {
        first >= second
    } else {
        first <= second
    }
}

/// Whether each system of `systems` may run before all that follow it.
pub open spec fn is_sorted(systems: Seq<ScheduledSystem>, descending: bool) -> bool {
    forall|i: int, j: int|
        0 <= i < j < systems.len() ==> in_order(
            (#[trigger] systems[i]).order(),
            (#[trigger] systems[j]).order(),
            descending,
        )
}

/// Where a system of order `order` joins `systems`: behind every system
/// that may run before it.
pub open spec fn slot(systems: Seq<ScheduledSystem>, order: u32, descending: bool) -> int
    decreases systems.len(),
{
    if systems.len() == 0 || !in_order(systems.last().order(), order, descending) {
        if systems.len() == 0 {
            0
        } else {
            slot(systems.drop_last(), order, descending)
        }
    } else {
        systems.len() as int
    }
}

/// `systems` with `system` added in its place.
pub open spec fn with_system(
    systems: Seq<ScheduledSystem>,
    system: ScheduledSystem,
    descending: bool,
) -> Seq<ScheduledSystem> {
    systems.insert(slot(systems, system.order(), descending), system)
}

/// The place of a new system lies within the list, behind every system that
/// may run before it and before every other.
pub proof fn lemma_slot(systems: Seq<ScheduledSystem>, order: u32, descending: bool)
    requires
        is_sorted(systems, descending),
    ensures
        0 <= slot(systems, order, descending) <= systems.len(),
        forall|i: int|
            0 <= i < slot(systems, order, descending) ==> in_order(
                (#[trigger] systems[i]).order(),
                order,
                descending,
            ),
        forall|i: int|
            slot(systems, order, descending) <= i < systems.len() ==> !in_order(
                (#[trigger] systems[i]).order(),
                order,
                descending,
            ),
    decreases systems.len(),
{
    if systems.len() > 0 && !in_order(systems.last().order(), order, descending) {
        let shorter = systems.drop_last();
        assert forall|i: int, j: int| 0 <= i < j < shorter.len() implies in_order(
            (#[trigger] shorter[i]).order(),
            (#[trigger] shorter[j]).order(),
            descending,
        ) by {
            assert(shorter[i] == systems[i] && shorter[j] == systems[j]);
        }
        lemma_slot(shorter, order, descending);
        assert forall|i: int| 0 <= i < slot(systems, order, descending) implies in_order(
            (#[trigger] systems[i]).order(),
            order,
            descending,
        ) by {
            assert(shorter[i] == systems[i]);
        }
        assert forall|i: int|
            slot(systems, order, descending) <= i < systems.len() implies !in_order(
            (#[trigger] systems[i]).order(),
            order,
            descending,
        ) by {
            if i < shorter.len() {
                assert(shorter[i] == systems[i]);
            }
        }
    } else if systems.len() > 0 {
        assert forall|i: int| 0 <= i < systems.len() implies in_order(
            (#[trigger] systems[i]).order(),
            order,
            descending,
        ) by {
            if i < systems.len() - 1 {
                assert(in_order(systems[i].order(), systems[systems.len() - 1].order(), descending));
            }
        }
    }
}

/// Adding a system in its place keeps a sorted list sorted.
pub proof fn lemma_with_system_is_sorted(
    systems: Seq<ScheduledSystem>,
    system: ScheduledSystem,
    descending: bool,
)
    requires
        is_sorted(systems, descending),
    ensures
        is_sorted(with_system(systems, system, descending), descending),
{
    lemma_slot(systems, system.order(), descending);
    let at = slot(systems, system.order(), descending);
    let longer = with_system(systems, system, descending);
    assert forall|i: int, j: int| 0 <= i < j < longer.len() implies in_order(
        (#[trigger] longer[i]).order(),
        (#[trigger] longer[j]).order(),
        descending,
    ) by {
        if i < at {
            assert(longer[i] == systems[i]);
        } else if i > at {
            assert(longer[i] == systems[i - 1]);
        }
        if j < at {
            assert(longer[j] == systems[j]);
        } else if j > at {
            assert(longer[j] == systems[j - 1]);
        }
    }
}

impl View for Schedule {
    type V = ScheduleView;

    open(crate) spec fn view(&self) -> ScheduleView {
        ScheduleView { updates: self.updates@, exits: self.exits@, enters: self.enters@ }
    }
}

/// Adds `system` to `systems` in its place.
pub(crate) fn add_system(systems: &mut Vec<ScheduledSystem>, system: ScheduledSystem, descending: bool)
    requires
        is_sorted(old(systems)@, descending),
    ensures
        final(systems)@ == with_system(old(systems)@, system, descending),
        is_sorted(final(systems)@, descending),
{
    let order = system.set.order_of();
    let mut at: usize = systems.len();
    proof {
        assert(systems@.take(systems@.len() as int) == systems@);
    }
    while at > 0 && !runs_in_order(systems[at - 1].set.order_of(), order, descending)
        invariant
            at <= systems@.len(),
            order == system.order(),
            slot(systems@, order, descending) == slot(systems@.take(at as int), order, descending),
        decreases at,
    {
        proof {
            assert(systems@.take(at as int).drop_last() == systems@.take(at - 1));
        }
        at -= 1;
    }
    proof {
        if at > 0 {
            assert(systems@.take(at as int).last() == systems@[at - 1]);
        }
        lemma_with_system_is_sorted(systems@, system, descending);
    }
    systems.insert(at, system);
}

impl Schedule {
    /// A schedule without systems.
    pub fn new() -> (schedule: Self)
        ensures
            schedule@.updates.len() == 0,
            schedule@.exits.len() == 0,
            schedule@.enters.len() == 0,
    {
        Schedule { updates: Vec::new(), exits: Vec::new(), enters: Vec::new() }
    }

    /// The update systems, in the order in which they run.
    pub fn updates(&self) -> (systems: &Vec<ScheduledSystem>)
        ensures
            systems@ == self@.updates,
    {
        &self.updates
    }

    /// The systems of the exit phase, in the order in which they run.
    pub fn exits(&self) -> (systems: &Vec<ScheduledSystem>)
        ensures
            systems@ == self@.exits,
    {
        &self.exits
    }

    /// The systems of the enter phase, in the order in which they run.
    pub fn enters(&self) -> (systems: &Vec<ScheduledSystem>)
        ensures
            systems@ == self@.enters,
    {
        &self.enters
    }
}

} // verus!
