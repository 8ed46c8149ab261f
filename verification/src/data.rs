//! The per-instance record of a state and the targets staged on it.

use vstd::prelude::*;
use vstd::std_specs::cmp::PartialEqSpec;
use crate::graph::StateId;

verus! {

/// Marker component for global states: the entity that carries it owns the
/// records of the states that belong to no entity in particular.
#[derive(Debug, Clone, Copy, PartialEq, Eq, Structural)]
pub struct GlobalStateMarker;

/// Used to keep track of which states are registered and which aren't: the
/// entity that carries it stands for the registration of one state type.
#[derive(Debug, Clone, Copy, PartialEq, Eq, Structural)]
pub struct RegisteredState {
    pub state: StateId,
}

impl RegisteredState {
    /// The marker of the registration of `state`.
    pub fn new(state: StateId) -> (marker: Self)
        ensures
            marker.state == state,
    {
        RegisteredState { state }
    }
}

/// A three-way request: leave the state alone, disable it, or enable it with a value.
///
/// It serves both as the decision returned by a state's update rule and as the
/// overwrite-style target that root and sub states are driven with.
#[derive(Debug)]
pub enum StateUpdate<S> {
    Nothing,
    Disable,
    Enable(S),
}

impl<S: Clone> Clone for StateUpdate<S> {
    /// The same request, with a clone of its value.
    fn clone(&self) -> (copy: Self)
        ensures
            match *self {
                StateUpdate::Nothing => copy is Nothing,
                StateUpdate::Disable => copy is Disable,
                StateUpdate::Enable(value) => copy is Enable && cloned(value, copy->Enable_0),
            },
    {
        match self {
            StateUpdate::Nothing => StateUpdate::Nothing,
            StateUpdate::Disable => StateUpdate::Disable,
            StateUpdate::Enable(value) => StateUpdate::Enable(value.clone()),
        }
    }
}

impl<S> Default for StateUpdate<S> {
    fn default() -> (update: Self)
        ensures
            update == StateUpdate::<S>::Nothing,
    {
        StateUpdate::Nothing
    }
}

impl<S> StateUpdate<S> {
    /// Whether this is anything but [`StateUpdate::Nothing`].
    pub fn is_something(&self) -> (something: bool)
        ensures
            something == !(*self is Nothing),
    {
        if let Self::Nothing = self {
            false
        } else {
            true
        }
    }

    /// What [`Self::as_options`] returns.
    pub open spec fn spec_as_options(self) -> Option<Option<S>> {
        match self {
            StateUpdate::Nothing => None,
            StateUpdate::Disable => Some(None),
            StateUpdate::Enable(s) => Some(Some(s)),
        }
    }

    /// The request as nested options: `None` for no request, `Some(None)` to
    /// disable, `Some(Some(s))` to enable with `s`.
    #[verifier::when_used_as_spec(spec_as_options)]
    pub fn as_options(self) -> (options: Option<Option<S>>)
        ensures
            options == self.spec_as_options(),
    {
        match self {
            StateUpdate::Nothing => None,
            StateUpdate::Disable => Some(None),
            StateUpdate::Enable(s) => Some(Some(s)),
        }
    }

    /// The same request, borrowing the value instead of owning it.
    pub fn as_ref(&self) -> (borrowed: StateUpdate<&S>)
        ensures
            borrowed == match *self {
                StateUpdate::Nothing => StateUpdate::<&S>::Nothing,
                StateUpdate::Disable => StateUpdate::<&S>::Disable,
                StateUpdate::Enable(s) => StateUpdate::<&S>::Enable(&s),
            },
    {
        match &self {
            StateUpdate::Nothing => StateUpdate::Nothing,
            StateUpdate::Disable => StateUpdate::Disable,
            StateUpdate::Enable(s) => StateUpdate::Enable(s),
        }
    }

    /// Moves the request out, leaving [`StateUpdate::Nothing`] behind.
    pub fn take(&mut self) -> (taken: Self)
        ensures
            taken == *old(self),
            *final(self) == StateUpdate::<S>::Nothing,
    {
        let mut taken = StateUpdate::Nothing;
        core::mem::swap(self, &mut taken);
        taken
    }
}


/// Variable target backend for states.
///
/// Different backends allow for different features: `()` for no manual
/// updates at all (computed states), [`StateUpdate`] for overwrite-style
/// control (root and sub states).
pub trait StateTarget: Default {
    /// Whether the target holds a request.
    spec fn is_requested(&self) -> bool;

    /// The target once its request has been consumed.
    spec fn consumed(&self) -> Self;

    /// Returns whether the state should be updated.
    fn should_update(&self) -> (should: bool)
        ensures
            should == self.is_requested(),
    ;

    /// Resets the target to reset change detection.
    fn reset(&mut self)
        ensures
            *final(self) == old(self).consumed(),
    ;

    /// A consumed target holds no request.
    proof fn consumed_is_idle(&self)
        ensures
            !self.consumed().is_requested(),
    ;
}

impl<S> StateTarget for StateUpdate<S> {
    open spec fn is_requested(&self) -> bool {
        !(*self is Nothing)
    }

    open spec fn consumed(&self) -> Self {
        StateUpdate::Nothing
    }

    fn should_update(&self) -> (should: bool) {
        self.is_something()
    }

    fn reset(&mut self) {
        let _ = self.take();
    }

    proof fn consumed_is_idle(&self) {
    }
}

impl StateTarget for () {
    open spec fn is_requested(&self) -> bool {
        false
    }

    open spec fn consumed(&self) -> Self {
        ()
    }

    fn should_update(&self) -> (should: bool) {
        false
    }

    fn reset(&mut self) {
    }

    proof fn consumed_is_idle(&self) {
    }
}


/// What the value type of an application's states is made of: values that
/// can be copied and compared, and the kind of target that is staged on the
/// records of its states.
pub trait StateValue: Sized + Clone + PartialEq {
    /// Backing structure for the staged target of a state.
    type Target: StateTarget;
}

/// The record of one state on one owner.
pub struct StateData<S: StateValue> {
    /// Whether this state was reentered.
    /// Use in tandem with [`Self::previous`].
    pub(crate) is_reentrant: bool,
    /// Last different state value.
    /// This is not overwritten during reentries.
    pub(crate) previous: Option<S>,
    /// Current value of the state.
    pub(crate) current: Option<S>,
    /// Proposed state value to be considered during the next transition.
    /// How this value actually impacts the state depends on the update rule
    /// of the state type.
    pub(crate) target: S::Target,
    /// Whether this state was updated in the last transition.
    pub(crate) is_updated: bool,
}

/// Whether `target` is a value that the default constructor of its type returns.
pub open spec fn is_default_target<T: StateTarget>(target: T) -> bool {
    call_ensures(T::default, (), target)
}

impl<S: StateValue> Default for StateData<S> {
    /// A disabled record that no transition has touched.
    fn default() -> (data: Self)
        ensures
            !data.is_reentrant(),
            data.previous() is None,
            data.current() is None,
            is_default_target(*data.target()),
            !data.is_updated(),
    {
        Self {
            is_reentrant: false,
            previous: None,
            current: None,
            target: S::Target::default(),
            is_updated: false,
        }
    }
}

impl<S: StateValue> StateData<S> {
    /// Creates a new instance with initial value.
    ///
    /// Unless the initial update is suppressed, the record counts as updated
    /// from the start, and does so until the update system of its state type
    /// next runs.
    pub fn new(initial: Option<S>, suppress_initial_update: bool) -> (data: Self)
        ensures
            !data.is_reentrant(),
            data.previous() is None,
            data.current_value() == initial,
            is_default_target(*data.target()),
            data.is_updated() == !suppress_initial_update,
    {
        Self {
            is_reentrant: false,
            previous: None,
            current: initial,
            target: S::Target::default(),
            is_updated: !suppress_initial_update,
        }
    }

    /// The record after `next` has been applied to it, where `reentrant`
    /// says whether `next` was found equal to the current value.
    pub open(crate) spec fn advanced_as(self, next: Option<S>, reentrant: bool) -> Self {
        if reentrant {
            StateData { is_reentrant: true, is_updated: true, ..self }
        } else {
            StateData {
                is_reentrant: false,
                previous: self.current,
                current: next,
                is_updated: true,
                target: self.target,
            }
        }
    }

    /// The record after `next` has been applied to it: a value equal to the
    /// current one marks the record reentrant and leaves both values alone,
    /// any other value becomes the current one and the value it replaces
    /// becomes the previous one. Either way the record counts as updated.
    pub open(crate) spec fn advanced(self, next: Option<S>) -> Self {
        self.advanced_as(next, next.eq_spec(&self.current))
    }

    /// Applies the decided value.
    ///
    /// Where `==` on the value type is specified, the result is
    /// [`Self::advanced`]; in any case it is one of the two records that a
    /// comparison can lead to.
    pub(crate) fn update(&mut self, next: Option<S>)
        ensures
            *final(self) == old(self).advanced_as(next, final(self).is_reentrant()),
            S::obeys_eq_spec() ==> *final(self) == old(self).advanced(next),
    {
        if next == self.current {
            self.is_reentrant = true;
        } else {
            self.is_reentrant = false;
            self.previous = self.current.take();
            self.current = next;
        }
        self.is_updated = true;
    }

    /// The record with the mark of the last transition taken off.
    pub open(crate) spec fn cleared(self) -> Self {
        StateData { is_updated: false, ..self }
    }

    /// The current value as the record owns it.
    pub open(crate) spec fn current_value(&self) -> Option<S> {
        self.current
    }

    /// The previous value as the record owns it.
    pub open(crate) spec fn previous_value(&self) -> Option<S> {
        self.previous
    }

    /// What [`Self::current`] returns.
    pub open(crate) spec fn spec_current(&self) -> Option<&S> {
        match self.current {
            Some(s) => Some(&s),
            None => None,
        }
    }

    /// Returns the current state.
    #[verifier::when_used_as_spec(spec_current)]
    pub fn current(&self) -> (current: Option<&S>)
        ensures
            current == self.spec_current(),
    {
        self.current.as_ref()
    }

    /// What [`Self::previous`] returns.
    pub open(crate) spec fn spec_previous(&self) -> Option<&S> {
        match self.previous {
            Some(s) => Some(&s),
            None => None,
        }
    }

    /// Returns the previous, different state.
    /// If the current state was reentered, this value will remain unchanged,
    /// instead the [`Self::is_reentrant()`] flag will be raised.
    #[verifier::when_used_as_spec(spec_previous)]
    pub fn previous(&self) -> (previous: Option<&S>)
        ensures
            previous == self.spec_previous(),
    {
        self.previous.as_ref()
    }

    /// What [`Self::reentrant_previous`] returns.
    pub open spec fn spec_reentrant_previous(&self) -> Option<&S> {
        if self.is_reentrant() {
            self.current()
        } else {
            self.previous()
        }
    }

    /// Returns the previous state with reentries included.
    #[verifier::when_used_as_spec(spec_reentrant_previous)]
    pub fn reentrant_previous(&self) -> (previous: Option<&S>)
        ensures
            previous == self.spec_reentrant_previous(),
    {
        if self.is_reentrant {
            self.current()
        } else {
            self.previous()
        }
    }

    /// What [`Self::is_reentrant`] returns.
    pub open(crate) spec fn spec_is_reentrant(&self) -> bool {
        self.is_reentrant
    }

    /// Returns whether the current state was reentered.
    #[verifier::when_used_as_spec(spec_is_reentrant)]
    pub fn is_reentrant(&self) -> (reentrant: bool)
        ensures
            reentrant == self.spec_is_reentrant(),
    {
        self.is_reentrant
    }

    /// What [`Self::is_updated`] returns.
    pub open(crate) spec fn spec_is_updated(&self) -> bool {
        self.is_updated
    }

    /// Returns whether the current state was updated last state transition.
    #[verifier::when_used_as_spec(spec_is_updated)]
    pub fn is_updated(&self) -> (updated: bool)
        ensures
            updated == self.spec_is_updated(),
    {
        self.is_updated
    }

    /// What [`Self::target`] returns.
    pub open(crate) spec fn spec_target(&self) -> &S::Target {
        &self.target
    }

    /// Reference to the target.
    #[verifier::when_used_as_spec(spec_target)]
    pub fn target(&self) -> (target: &S::Target)
        ensures
            target == self.spec_target(),
    {
        &self.target
    }

    /// The record with `target` staged on it and nothing else changed.
    pub open(crate) spec fn with_target(self, target: S::Target) -> Self {
        StateData { target, ..self }
    }

    /// Mutable reference to the target.
    pub fn target_mut(&mut self) -> (target: &mut S::Target)
        ensures
            *target == *old(self).target(),
            *final(self) == old(self).with_target(*final(target)),
    {
        &mut self.target
    }
}

/// Reentry preserves the previous value: where a value that equals itself is
/// applied twice in a row, the second application finds the record reentered
/// and leaves the previous value as the first application left it.
pub proof fn lemma_reentry_preserves_previous<S: StateValue>(data: StateData<S>, next: Option<S>)
    requires
        next.eq_spec(&next),
    ensures
        data.advanced(next).advanced(next).is_reentrant(),
        data.advanced(next).advanced(next).previous_value() == data.advanced(next).previous_value(),
        data.advanced(next).advanced(next).current_value() == data.advanced(next).current_value(),
{
}

/// A distinct transition updates the previous value: where `first` is
/// applied and then `second`, which differs from it, the second application
/// is no reentry and makes the previous value what the first application left
/// as the current one.
///
/// Equality on the value type need not be transitive. So the case is left out
/// in which both values are found equal to the value that the record held to
/// begin with, though not to one another.
pub proof fn lemma_distinct_transition_updates_previous<S: StateValue>(
    data: StateData<S>,
    first: Option<S>,
    second: Option<S>,
)
    requires
        !second.eq_spec(&first),
        !(first.eq_spec(&data.current_value()) && second.eq_spec(&data.current_value())),
    ensures
        !data.advanced(first).advanced(second).is_reentrant(),
        data.advanced(first).advanced(second).previous_value() == data.advanced(
            first,
        ).current_value(),
        data.advanced(first).advanced(second).current_value() == second,
        !first.eq_spec(&data.current_value()) ==> data.advanced(first).advanced(
            second,
        ).previous_value() == first,
{
}

/// What an application makes of a record: it counts as updated and its
/// target is as it was; a reentry leaves both values alone, anything else
/// moves the current value to the previous one and puts `next` in its place.
pub proof fn lemma_advanced<S: StateValue>(data: StateData<S>, next: Option<S>, reentrant: bool)
    ensures
        data.advanced(next) == data.advanced_as(next, next.eq_spec(&data.current_value())),
        data.advanced_as(next, reentrant).is_updated(),
        data.advanced_as(next, reentrant).is_reentrant() == reentrant,
        data.advanced_as(next, reentrant).target() == data.target(),
        data.advanced_as(next, reentrant).current_value() == if reentrant {
            data.current_value()
        } else {
            next
        },
        data.advanced_as(next, reentrant).previous_value() == if reentrant {
            data.previous_value()
        } else {
            data.current_value()
        },
{
}

/// Taking the mark of the last transition off a record changes nothing else.
pub proof fn lemma_cleared<S: StateValue>(data: StateData<S>)
    ensures
        !data.cleared().is_updated(),
        data.cleared().is_reentrant() == data.is_reentrant(),
        data.cleared().target() == data.target(),
        data.cleared().current_value() == data.current_value(),
        data.cleared().previous_value() == data.previous_value(),
{
}

/// Staging a target on a record changes nothing else.
pub proof fn lemma_with_target<S: StateValue>(data: StateData<S>, target: S::Target)
    ensures
        data.with_target(target).target() == target,
        data.with_target(target).is_updated() == data.is_updated(),
        data.with_target(target).is_reentrant() == data.is_reentrant(),
        data.with_target(target).current_value() == data.current_value(),
        data.with_target(target).previous_value() == data.previous_value(),
{
}

/// A record is what its current value, its previous value, its target and
/// its two marks say.
pub proof fn lemma_record_is_its_parts<S: StateValue>(first: StateData<S>, second: StateData<S>)
    requires
        first.current_value() == second.current_value(),
        first.previous_value() == second.previous_value(),
        first.target() == second.target(),
        first.is_reentrant() == second.is_reentrant(),
        first.is_updated() == second.is_updated(),
    ensures
        first == second,
{
}

} // verus!
