//! The dependency graph of state types.

use vstd::prelude::*;
use crate::state_set::StateSet;

verus! {

/// Names a state type: its position in the [`StateGraph`] that declared it.
#[derive(Debug, Clone, Copy, PartialEq, Eq, Hash, Structural)]
pub struct StateId(pub usize);

/// Why a state type could not be declared.
#[derive(Debug, Clone, Copy, PartialEq, Eq, Structural)]
pub enum GraphError {
    /// A dependency names a state type that the graph has not declared.
    UnknownDependency,
    /// The hierarchy order of the new state type does not fit in a `u32`.
    OrderOverflow,
}

/// The state types of an application: for each its dependencies and its
/// hierarchy order.
///
/// A state type can only depend on state types declared before it, so the
/// dependencies never form a cycle.
pub struct StateGraph {
    dependencies: Vec<Vec<StateId>>,
    orders: Vec<u32>,
}

/// The larger of two orders.
pub fn const_max(a: u32, b: u32) -> (max: u32)
    ensures
        max >= a,
        max >= b,
        max == a || max == b,
{
    if a > b {
        a
    } else {
        b
    }
}

/// What the first `i + 1` elements of a sequence contain, from what the first
/// `i` contain.
proof fn lemma_take_contains<A>(s: Seq<A>, i: int, x: A)
    requires
        0 <= i < s.len(),
    ensures
        s.take(i + 1).contains(x) <==> s.take(i).contains(x) || s[i] == x,
{
    let longer = s.take(i + 1);
    let shorter = s.take(i);
    if longer.contains(x) {
        let at = choose|at: int| 0 <= at < longer.len() && longer[at] == x;
        if at < i {
            assert(shorter[at] == x);
        }
    }
    if shorter.contains(x) {
        let at = choose|at: int| 0 <= at < shorter.len() && shorter[at] == x;
        assert(longer[at] == x);
    }
    if s[i] == x {
        assert(longer[i] == x);
    }
}

impl StateGraph {
    /// How many state types are declared.
    pub closed spec fn count(&self) -> nat {
        self.dependencies@.len()
    }

    /// Whether `kind` is declared.
    pub open spec fn declares(&self, kind: StateId) -> bool {
        kind.0 < self.count()
    }

    /// The state types that `kind` depends on directly.
    pub closed spec fn dependencies_of(&self, kind: StateId) -> Seq<StateId> {
        self.dependencies@[kind.0 as int]@
    }

    /// The hierarchy order of `kind`.
    pub closed spec fn order_of(&self, kind: StateId) -> u32 {
        self.orders@[kind.0 as int]
    }

    /// The highest hierarchy order among `set`, 0 for the empty set.
    pub open spec fn highest_order(&self, set: Seq<StateId>) -> int
        decreases set.len(),
    {
        if set.len() == 0 {
            0
        } else {
            let rest = self.highest_order(set.drop_last());
            let last = self.order_of(set.last()) as int;
            if last > rest {
                last
            } else {
                rest
            }
        }
    }

    /// Every state type depends only on state types declared before it, and
    /// its order is one more than the highest order among its dependencies.
    pub closed spec fn wf(&self) -> bool {
        &&& self.orders@.len() == self.dependencies@.len()
        &&& forall|k: int, i: int|
            0 <= k < self.dependencies@.len() && 0 <= i < self.dependencies@[k]@.len()
                ==> (#[trigger] self.dependencies@[k]@[i]).0 < k
        &&& forall|k: int|
            0 <= k < self.dependencies@.len() ==> #[trigger] self.orders@[k] as int
                == self.highest_order(self.dependencies@[k]@) + 1
    }

    /// A graph without state types.
    pub fn new() -> (graph: Self)
        ensures
            graph.wf(),
            graph.count() == 0,
    {
        StateGraph { dependencies: Vec::new(), orders: Vec::new() }
    }

    /// The number of declared state types.
    pub fn len(&self) -> (len: usize)
        ensures
            len == self.count(),
    {
        self.dependencies.len()
    }

    /// Whether `kind` is declared.
    pub fn contains(&self, kind: StateId) -> (declared: bool)
        ensures
            declared == self.declares(kind),
    {
        kind.0 < self.dependencies.len()
    }

    /// The direct dependencies of `kind`.
    pub fn dependencies(&self, kind: StateId) -> (dependencies: &Vec<StateId>)
        requires
            self.declares(kind),
        ensures
            dependencies@ == self.dependencies_of(kind),
    {
        &self.dependencies[kind.0]
    }

    /// The hierarchy order of `kind`: roots have order 1, every other state
    /// type is one above the highest of its dependencies.
    pub fn order(&self, kind: StateId) -> (order: u32)
        requires
            self.declares(kind),
            self.wf(),
        ensures
            order == self.order_of(kind),
    {
        self.orders[kind.0]
    }

    /// The highest hierarchy order among `set`, or `None` where a member is
    /// not declared.
    pub fn highest(&self, set: &Vec<StateId>) -> (highest: Option<u32>)
        requires
            self.wf(),
        ensures
            highest is Some <==> forall|i: int| 0 <= i < set@.len() ==> self.declares(#[trigger] set@[i]),
            highest is Some ==> highest->0 == self.highest_order(set@),
    {
        let mut highest: u32 = 0;
        let mut i: usize = 0;
        while i < set.len()
            invariant
                self.wf(),
                i <= set@.len(),
                forall|j: int| 0 <= j < i ==> self.declares(#[trigger] set@[j]),
                highest == self.highest_order(set@.take(i as int)),
            decreases set@.len() - i,
        {
            let member = set[i];
            if !self.contains(member) {
                return None;
            }
            proof {
                assert(set@.take(i + 1).drop_last() == set@.take(i as int));
            }
            highest = const_max(highest, self.orders[member.0]);
            i += 1;
        }
        proof {
            assert(set@.take(set@.len() as int) == set@);
        }
        Some(highest)
    }

    /// What comes of the attempt to declare a state type that depends on
    /// `dependencies`: the name of the new state type, which is the number of
    /// state types declared before it, unless a dependency is not declared
    /// or the order of the new state type would not fit in a `u32`.
    pub open spec fn declaring(&self, dependencies: Seq<StateId>) -> Result<StateId, GraphError> {
        if exists|i: int| 0 <= i < dependencies.len() && !self.declares(#[trigger] dependencies[i]) {
            Err(GraphError::UnknownDependency)
        } else if self.highest_order(dependencies) >= u32::MAX {
            Err(GraphError::OrderOverflow)
        } else {
            Ok(StateId(self.count() as usize))
        }
    }

    /// Declares a state type that depends on `dependencies` and returns its name.
    ///
    /// Fails, leaving the graph alone, where a dependency is not declared yet
    /// or the order of the new state type would not fit in a `u32`.
    pub fn declare<D: StateSet>(&mut self, dependencies: D) -> (declared: Result<StateId, GraphError>)
        requires
            old(self).wf(),
        ensures
            final(self).wf(),
            declared == old(self).declaring(dependencies.members()),
            match declared {
                Ok(kind) => {
                    &&& final(self).count() == old(self).count() + 1
                    &&& final(self).dependencies_of(kind) == dependencies.members()
                    &&& final(self).order_of(kind) == old(self).highest_order(dependencies.members()) + 1
                    &&& forall|other: StateId| #[trigger]
                        old(self).declares(other) ==> {
                            &&& final(self).dependencies_of(other) == old(self).dependencies_of(other)
                            &&& final(self).order_of(other) == old(self).order_of(other)
                        }
                },
                Err(_) => *final(self) == *old(self),
            },
    {
        let dependencies = dependencies.to_vec();
        let highest = match self.highest(&dependencies) {
            Some(highest) => highest,
            None => {
                return Err(GraphError::UnknownDependency);
            },
        };
        if highest == u32::MAX {
            return Err(GraphError::OrderOverflow);
        }
        let kind = StateId(self.dependencies.len());
        proof {
            self.lemma_highest_order_is_local(dependencies@);
        }
        self.dependencies.push(dependencies);
        self.orders.push(highest + 1);
        proof {
            assert forall|k: int| 0 <= k < self.dependencies@.len() implies #[trigger] self.orders@[k]
                as int == self.highest_order(self.dependencies@[k]@) + 1 by {
                old(self).lemma_highest_order_extends(*self, self.dependencies@[k]@);
            }
        }
        Ok(kind)
    }

    /// Whether `dependency` is among the direct dependencies of `kind`.
    pub open spec fn depends_on(&self, kind: StateId, dependency: StateId) -> bool {
        self.dependencies_of(kind).contains(dependency)
    }

    /// Whether `kind` cannot do without `other`: `other` is `kind` itself, or
    /// a dependency of a state type that `kind` cannot do without.
    pub open spec fn requires_state(&self, kind: StateId, other: StateId) -> bool
        decreases kind.0 - other.0,
    {
        other == kind || (other.0 < kind.0 && exists|between: StateId|
            other.0 < between.0 <= kind.0 && self.requires_state(kind, between)
                && #[trigger] self.depends_on(between, other))
    }

    /// For each state type up to `kind`, whether `kind` cannot do without it.
    pub fn required_states(&self, kind: StateId) -> (required: Vec<bool>)
        requires
            self.wf(),
            self.declares(kind),
        ensures
            required@.len() == kind.0 + 1,
            forall|other: StateId|
                other.0 <= kind.0 ==> #[trigger] required@[other.0 as int] == self.requires_state(
                    kind,
                    other,
                ),
    {
        let mut required: Vec<bool> = Vec::new();
        while required.len() < kind.0
            invariant
                required@.len() <= kind.0,
                forall|j: int| 0 <= j < required@.len() ==> !#[trigger] required@[j],
            decreases kind.0 - required@.len(),
        {
            required.push(false);
        }
        required.push(true);
        let mut next: usize = required.len();
        proof {
            assert forall|other: StateId| other.0 < next implies #[trigger] required@[other.0 as int]
                == self.required_through(kind, other, next as int) by {
                if other.0 < kind.0 {
                    assert(!required@[other.0 as int]);
                }
            }
        }
        while next > 0
            invariant
                self.wf(),
                self.declares(kind),
                next <= kind.0 + 1,
                required@.len() == kind.0 + 1,
                forall|other: StateId|
                    next <= other.0 <= kind.0 ==> #[trigger] required@[other.0 as int]
                        == self.requires_state(kind, other),
                forall|other: StateId|
                    other.0 < next ==> #[trigger] required@[other.0 as int] == self.required_through(
                        kind,
                        other,
                        next as int,
                    ),
            decreases next,
        {
            next -= 1;
            let current = StateId(next);
            let ghost before = required@;
            if required[next] {
                let dependencies = &self.dependencies[next];
                let mut i: usize = 0;
                while i < dependencies.len()
                    invariant
                        self.wf(),
                        self.declares(kind),
                        next <= kind.0,
                        current == StateId(next),
                        dependencies@ == self.dependencies_of(current),
                        i <= dependencies@.len(),
                        required@.len() == kind.0 + 1,
                        before.len() == kind.0 + 1,
                        forall|j: int| next <= j <= kind.0 ==> required@[j] == before[j],
                        forall|other: StateId|
                            other.0 < next ==> #[trigger] required@[other.0 as int] == (before[other.0 as int]
                                || dependencies@.take(i as int).contains(other)),
                    decreases dependencies@.len() - i,
                {
                    let dependency = dependencies[i];
                    proof {
                        assert(dependency.0 < next);
                        let longer = dependencies@.take(i + 1);
                        assert forall|other: StateId| other.0 < next implies (#[trigger] longer.contains(
                            other,
                        ) <==> dependencies@.take(i as int).contains(other) || other == dependency) by {
                            lemma_take_contains(dependencies@, i as int, other);
                        }
                    }
                    required.set(dependency.0, true);
                    i += 1;
                }
                proof {
                    assert(dependencies@.take(dependencies@.len() as int) == dependencies@);
                }
            }
            proof {
                assert forall|other: StateId| other.0 < next implies #[trigger] required@[other.0 as int]
                    == self.required_through(kind, other, next as int) by {
                    assert(before[other.0 as int] == self.required_through(kind, other, next + 1));
                    assert(before[current.0 as int] == self.required_through(kind, current, next + 1));
                    self.lemma_required_through_start(kind, current);
                    self.lemma_required_through_step(kind, other, next as int);
                }
                assert forall|other: StateId| next <= other.0 <= kind.0 implies #[trigger] required@[other.0 as int]
                    == self.requires_state(kind, other) by {
                    if other.0 == next {
                        assert(other == current);
                        assert(before[other.0 as int] == self.required_through(kind, other, next + 1));
                        self.lemma_required_through_start(kind, current);
                    } else {
                        assert(before[other.0 as int] == self.requires_state(kind, other));
                    }
                }
            }
        }
        required
    }

    /// Whether a state type from `from` up to `kind` that `kind` cannot do
    /// without depends on `other`.
    pub closed spec fn required_through(&self, kind: StateId, other: StateId, from: int) -> bool {
        other == kind || (other.0 < kind.0 && exists|between: StateId|
            other.0 < between.0 <= kind.0 && from <= between.0 && self.requires_state(kind, between)
                && #[trigger] self.depends_on(between, other))
    }

    /// With nothing left out, what is required through others is what is
    /// required.
    proof fn lemma_required_through_start(&self, kind: StateId, other: StateId)
        ensures
            self.required_through(kind, other, other.0 + 1) == self.requires_state(kind, other),
    {
        assert(self.requires_state(kind, other) == (other == kind || (other.0 < kind.0
            && exists|between: StateId|
            other.0 < between.0 <= kind.0 && self.requires_state(kind, between)
                && #[trigger] self.depends_on(between, other))));
        if self.requires_state(kind, other) && other != kind {
            let between = choose|between: StateId|
                other.0 < between.0 <= kind.0 && self.requires_state(kind, between)
                    && #[trigger] self.depends_on(between, other);
            assert(other.0 + 1 <= between.0);
        }
    }

    /// What is required through the state types from `from` on is what is
    /// required through those above it, and what `from` itself depends on if
    /// it is required.
    proof fn lemma_required_through_step(&self, kind: StateId, other: StateId, from: int)
        requires
            other.0 < from <= kind.0,
        ensures
            self.required_through(kind, other, from) == (self.required_through(kind, other, from + 1)
                || (self.requires_state(kind, StateId(from as usize)) && self.depends_on(
                StateId(from as usize),
                other,
            ))),
    {
        let here = StateId(from as usize);
        if self.required_through(kind, other, from) {
            let between = choose|between: StateId|
                other.0 < between.0 <= kind.0 && from <= between.0 && self.requires_state(kind, between)
                    && #[trigger] self.depends_on(between, other);
            if between.0 != from {
                assert(from + 1 <= between.0);
            } else {
                assert(between == here);
            }
        }
        if self.requires_state(kind, here) && self.depends_on(here, other) {
            assert(other.0 < here.0 <= kind.0 && from <= here.0);
        }
    }

    /// A state type is declared after each of its dependencies, and stands
    /// above each of them in the hierarchy.
    pub proof fn lemma_dependency_is_lower(&self, kind: StateId, dependency: StateId)
        requires
            self.wf(),
            self.declares(kind),
            self.depends_on(kind, dependency),
        ensures
            dependency.0 < kind.0,
            self.order_of(dependency) < self.order_of(kind),
    {
        let set = self.dependencies_of(kind);
        let at = choose|at: int| 0 <= at < set.len() && set[at] == dependency;
        assert(self.dependencies@[kind.0 as int]@[at].0 < kind.0);
        self.lemma_highest_order_bounds(set, at);
        assert(self.orders@[kind.0 as int] as int == self.highest_order(set) + 1);
    }

    /// No state type has order 0: roots have order 1.
    pub proof fn lemma_order_is_positive(&self, kind: StateId)
        requires
            self.wf(),
            self.declares(kind),
        ensures
            1 <= self.order_of(kind) <= u32::MAX,
            self.dependencies_of(kind).len() == 0 ==> self.order_of(kind) == 1,
            self.order_of(kind) == self.highest_order(self.dependencies_of(kind)) + 1,
    {
        self.lemma_highest_order_is_local(self.dependencies_of(kind));
        assert(self.orders@[kind.0 as int] as int == self.highest_order(
            self.dependencies@[kind.0 as int]@,
        ) + 1);
    }

    /// A state type stands above everything else that it cannot do without.
    pub proof fn lemma_required_is_lower(&self, kind: StateId, other: StateId)
        requires
            self.wf(),
            self.declares(kind),
            self.requires_state(kind, other),
            other != kind,
        ensures
            other.0 < kind.0,
            self.order_of(other) < self.order_of(kind),
        decreases kind.0 - other.0,
    {
        let between = choose|between: StateId|
            other.0 < between.0 <= kind.0 && self.requires_state(kind, between)
                && #[trigger] self.depends_on(between, other);
        self.lemma_dependency_is_lower(between, other);
        if between != kind {
            self.lemma_required_is_lower(kind, between);
        }
    }

    /// The highest order among `set` is no lower than the order of any member.
    proof fn lemma_highest_order_bounds(&self, set: Seq<StateId>, at: int)
        requires
            0 <= at < set.len(),
        ensures
            self.order_of(set[at]) <= self.highest_order(set),
        decreases set.len(),
    {
        if at < set.len() - 1 {
            self.lemma_highest_order_bounds(set.drop_last(), at);
        }
    }

    /// The highest order among declared state types is an order of the graph.
    proof fn lemma_highest_order_is_local(&self, set: Seq<StateId>)
        ensures
            0 <= self.highest_order(set),
            self.highest_order(set) <= u32::MAX,
        decreases set.len(),
    {
        if set.len() > 0 {
            self.lemma_highest_order_is_local(set.drop_last());
        }
    }

    /// A graph that agrees with this one on the orders of the members of
    /// `set` agrees with it on their highest order.
    proof fn lemma_highest_order_extends(&self, other: Self, set: Seq<StateId>)
        requires
            forall|i: int| 0 <= i < set.len() ==> self.order_of(#[trigger] set[i]) == other.order_of(set[i]),
        ensures
            self.highest_order(set) == other.highest_order(set),
        decreases set.len(),
    {
        if set.len() > 0 {
            self.lemma_highest_order_extends(other, set.drop_last());
        }
    }
}

} // verus!
