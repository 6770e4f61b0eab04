use vstd::prelude::*;

use crate::comparison::{bound_of, comparable, compare_values, holds, Assert};
use crate::error::PlanError;
use crate::keyed::{has_key, lemma_store, lookup, ordered_keys, store, store_all, store_entry};
use crate::value::{same_kind, value_distance, Value};
use crate::world_state::WorldState;

verus! {

/// What a state should satisfy: an assertion per variable, all of which must
/// hold, kept in increasing name order.
#[derive(Debug, PartialEq, Eq, Hash)]
pub struct Goal {
    requirements: Vec<(String, Assert)>,
}

impl View for Goal {
    type V = Seq<(String, Assert)>;

    closed spec fn view(&self) -> Seq<(String, Assert)> {
        self.requirements@
    }
}

/// Every requirement names a variable of `s` whose value passes it.
pub open spec fn goal_met(reqs: Seq<(String, Assert)>, s: Seq<(String, Value)>) -> bool {
    forall|i: int|
        0 <= i < reqs.len() ==> (#[trigger] lookup(s, reqs[i].0@) matches Some(v) && holds(
            reqs[i].1,
            v,
        ))
}

/// Every variable of `s` that a requirement names carries the tag of the
/// requirement's bound.
pub open spec fn goal_compatible(reqs: Seq<(String, Assert)>, s: Seq<(String, Value)>) -> bool {
    forall|i: int|
        0 <= i < reqs.len() ==> (#[trigger] lookup(s, reqs[i].0@) matches Some(v) ==> same_kind(
            v,
            bound_of(reqs[i].1),
        ))
}

/// Every requirement can be evaluated on the variable of `s` it names.
pub open spec fn goal_comparable(reqs: Seq<(String, Assert)>, s: Seq<(String, Value)>) -> bool {
    forall|i: int|
        0 <= i < reqs.len() ==> (#[trigger] lookup(s, reqs[i].0@) matches Some(v) ==> comparable(
            reqs[i].1,
            v,
        ))
}

/// The goal test on `s`: the first ordering requirement (in order) whose
/// variable carries another tag than its bound is a fault; otherwise whether
/// the goal is met. An absent variable, or an equality test across tags, just
/// fails or passes.
pub open spec fn goal_outcome(reqs: Seq<(String, Assert)>, s: Seq<(String, Value)>) -> Result<
    bool,
    PlanError,
>
    decreases reqs.len(),
{
    if reqs.len() == 0 {
        Ok(true)
    } else {
        match goal_outcome(reqs.drop_last(), s) {
            Err(e) => Err(e),
            Ok(b) => match lookup(s, reqs.last().0@) {
                None => Ok(false),
                Some(v) => if comparable(reqs.last().1, v) {
                    Ok(b && holds(reqs.last().1, v))
                } else {
                    Err(PlanError::TypeMismatch(reqs.last().0))
                },
            },
        }
    }
}

/// The estimate of how far `s` is from the goal: over the requirements, the
/// distance from the variable to the bound, or 1 for an absent variable.
pub open spec fn goal_distance(reqs: Seq<(String, Assert)>, s: Seq<(String, Value)>) -> nat
    decreases reqs.len(),
{
    if reqs.len() == 0 {
        0
    } else {
        goal_distance(reqs.drop_last(), s) + match lookup(s, reqs.last().0@) {
            None => 1nat,
            Some(v) => value_distance(v, bound_of(reqs.last().1)),
        }
    }
}

/// The goal test succeeds exactly where every requirement can be evaluated,
/// and then tells whether the goal is met.
pub proof fn lemma_goal_outcome(reqs: Seq<(String, Assert)>, s: Seq<(String, Value)>)
    ensures
        goal_outcome(reqs, s) is Ok <==> goal_comparable(reqs, s),
        goal_outcome(reqs, s) matches Ok(b) ==> b == goal_met(reqs, s),
    decreases reqs.len(),
{
    if reqs.len() > 0 {
        let init = reqs.drop_last();
        lemma_goal_outcome(init, s);
        let n = reqs.len() - 1;
        assert forall|i: int| 0 <= i < n implies reqs[i] == init[i] by {}
        if goal_comparable(reqs, s) {
            assert(goal_comparable(init, s)) by {
                assert forall|i: int| 0 <= i < init.len() implies (#[trigger] lookup(s, init[i].0@) matches Some(v) ==> comparable(init[i].1, v)) by {
                    assert(lookup(s, reqs[i].0@) matches Some(v) ==> comparable(reqs[i].1, v));
                }
            }
            assert(lookup(s, reqs[n].0@) matches Some(v) ==> comparable(reqs[n].1, v));
            if goal_met(reqs, s) {
                assert(lookup(s, reqs[n].0@) matches Some(v) && holds(reqs[n].1, v));
                assert forall|i: int| 0 <= i < init.len() implies (#[trigger] lookup(s, init[i].0@) matches Some(v) && holds(init[i].1, v)) by {
                    assert(lookup(s, reqs[i].0@) matches Some(v) && holds(reqs[i].1, v));
                }
            } else {
                let j = choose|j: int| 0 <= j < reqs.len() && !(#[trigger] lookup(s, reqs[j].0@) matches Some(v) && holds(reqs[j].1, v));
                if j < n {
                    assert(!(lookup(s, init[j].0@) matches Some(v) && holds(init[j].1, v)));
                }
            }
        } else {
            let j = choose|j: int| 0 <= j < reqs.len() && !(#[trigger] lookup(s, reqs[j].0@) matches Some(v) ==> comparable(reqs[j].1, v));
            if j < n {
                assert(!(lookup(s, init[j].0@) matches Some(v) ==> comparable(init[j].1, v)));
            }
        }
    }
}

/// The name of the first requirement, in order, whose variable in `s`
/// carries another tag than the requirement's bound, so that no distance
/// between them is defined.
pub open spec fn first_incompatible(reqs: Seq<(String, Assert)>, s: Seq<(String, Value)>) -> Option<
    String,
>
    decreases reqs.len(),
{
    if reqs.len() == 0 {
        None
    } else {
        match first_incompatible(reqs.drop_last(), s) {
            Some(k) => Some(k),
            None => match lookup(s, reqs.last().0@) {
                Some(v) => if same_kind(v, bound_of(reqs.last().1)) {
                    None
                } else {
                    Some(reqs.last().0)
                },
                None => None,
            },
        }
    }
}

/// No requirement is incompatible exactly when the state is compatible with
/// the goal.
pub proof fn lemma_first_incompatible(reqs: Seq<(String, Assert)>, s: Seq<(String, Value)>)
    ensures
        first_incompatible(reqs, s) is None <==> goal_compatible(reqs, s),
    decreases reqs.len(),
{
    if reqs.len() > 0 {
        let init = reqs.drop_last();
        lemma_first_incompatible(init, s);
        let n = reqs.len() - 1;
        assert forall|i: int| 0 <= i < n implies reqs[i] == init[i] by {}
        if goal_compatible(reqs, s) {
            assert forall|i: int| 0 <= i < init.len() implies (#[trigger] lookup(s, init[i].0@) matches Some(v) ==> same_kind(v, bound_of(init[i].1))) by {
                assert(lookup(s, reqs[i].0@) matches Some(v) ==> same_kind(v, bound_of(reqs[i].1)));
            }
            assert(lookup(s, reqs[n].0@) matches Some(v) ==> same_kind(v, bound_of(reqs[n].1)));
        } else {
            let j = choose|j: int| 0 <= j < reqs.len() && !(#[trigger] lookup(s, reqs[j].0@) matches Some(v) ==> same_kind(v, bound_of(reqs[j].1)));
            if j < n {
                assert(!(lookup(s, init[j].0@) matches Some(v) ==> same_kind(v, bound_of(init[j].1))));
            }
        }
    }
}

impl Goal {
    /// Names are unique and in increasing order.
    pub open spec fn wf(&self) -> bool {
        ordered_keys(self@)
    }

    /// A goal with no requirement.
    pub fn new() -> (r: Self)
        ensures
            r.wf(),
            r@ == Seq::<(String, Assert)>::empty(),
    {
        Goal { requirements: Vec::new() }
    }

    /// This goal with `evaluate` required of `key`, replacing an earlier
    /// requirement on `key`.
    pub fn with(self, key: &str, evaluate: Assert) -> (r: Self)
        requires
            self.wf(),
        ensures
            r.wf(),
            lookup(r@, key@) == Some(evaluate),
            forall|q: Seq<char>| q != key@ ==> lookup(r@, q) == lookup(self@, q),
            forall|q: Seq<char>| has_key(r@, q) <==> (q == key@ || has_key(self@, q)),
    {
        let k = key.to_owned();
        proof {
            lemma_store(self@, k, evaluate);
        }
        self.insert(k, evaluate)
    }

    /// This goal with `evaluate` stored under `key`.
    fn insert(self, key: String, evaluate: Assert) -> (r: Self)
        requires
            self.wf(),
        ensures
            r.wf(),
            r@ == store(self@, key, evaluate),
    {
        let mut g = self;
        store_entry(&mut g.requirements, key, evaluate);
        g
    }

    /// A goal with each condition, a later one on a name replacing an earlier.
    pub fn from_reqs(conditions: &[(String, Assert)]) -> (r: Self)
        ensures
            r.wf(),
            r@ == store_all(conditions@),
            forall|q: Seq<char>| has_key(r@, q) <==> has_key(conditions@, q),
    {
        let mut g = Goal::new();
        let mut i: usize = 0;
        while i < conditions.len()
            invariant
                0 <= i <= conditions@.len(),
                g.wf(),
                g@ == store_all(conditions@.subrange(0, i as int)),
                forall|q: Seq<char>|
                    has_key(g@, q) <==> has_key(conditions@.subrange(0, i as int), q),
            decreases conditions@.len() - i,
        {
            let ghost before = g@;
            proof {
                let post = conditions@.subrange(0, i as int + 1);
                assert(post.drop_last() =~= conditions@.subrange(0, i as int));
                assert(post.last() == conditions@[i as int]);
            }
            g = g.insert(conditions[i].0.clone(), conditions[i].1);
            proof {
                lemma_store(before, conditions@[i as int].0, conditions@[i as int].1);
                let pre = conditions@.subrange(0, i as int);
                let post = conditions@.subrange(0, i as int + 1);
                assert forall|q: Seq<char>| has_key(g@, q) <==> has_key(post, q) by {
                    if has_key(pre, q) {
                        let j = choose|j: int| 0 <= j < pre.len() && pre[j].0@ == q;
                        assert(post[j] == pre[j]);
                    }
                    if has_key(post, q) {
                        let j = choose|j: int| 0 <= j < post.len() && post[j].0@ == q;
                        if j < i {
                            assert(pre[j] == post[j]);
                        }
                    }
                    assert(post[i as int] == conditions@[i as int]);
                    assert(has_key(before, q) <==> has_key(pre, q));
                }
            }
            i = i + 1;
        }
        assert(conditions@.subrange(0, conditions@.len() as int) =~= conditions@);
        g
    }

    /// Whether `world_state` meets every requirement; an absent variable fails
    /// its requirement.
    pub fn is_satisfied_by(&self, world_state: &WorldState) -> (r: bool)
        requires
            self.wf(),
            world_state.wf(),
            goal_comparable(self@, world_state@),
        ensures
            r == goal_met(self@, world_state@),
    {
        let mut i: usize = 0;
        while i < self.requirements.len()
            invariant
                0 <= i <= self@.len(),
                world_state.wf(),
                goal_comparable(self@, world_state@),
                forall|j: int|
                    0 <= j < i ==> (#[trigger] lookup(world_state@, self@[j].0@) matches Some(v)
                        && holds(self@[j].1, v)),
            decreases self@.len() - i,
        {
            let ghost k = self@[i as int].0@;
            assert(lookup(world_state@, k) matches Some(v) ==> comparable(self@[i as int].1, v));
            match world_state.get(self.requirements[i].0.as_str()) {
                None => {
                    return false;
                },
                Some(v) => {
                    if !compare_values(&self.requirements[i].1, v) {
                        return false;
                    }
                },
            }
            i = i + 1;
        }
        true
    }

    /// The goal test with faults: see `goal_outcome`.
    pub(crate) fn check(&self, world_state: &WorldState) -> (r: Result<bool, PlanError>)
        requires
            world_state.wf(),
        ensures
            r == goal_outcome(self@, world_state@),
    {
        let mut met = true;
        let mut i: usize = 0;
        while i < self.requirements.len()
            invariant
                0 <= i <= self@.len(),
                world_state.wf(),
                goal_outcome(self@.subrange(0, i as int), world_state@) == Ok::<bool, PlanError>(
                    met,
                ),
            decreases self@.len() - i,
        {
            let ghost pre = self@.subrange(0, i as int + 1);
            proof {
                assert(pre.drop_last() =~= self@.subrange(0, i as int));
            }
            match world_state.get(self.requirements[i].0.as_str()) {
                None => {
                    met = false;
                },
                Some(v) => {
                    let a = &self.requirements[i].1;
                    if !a.accepts_kind_of(v) {
                        proof {
                            lemma_goal_fault_persists(self@, world_state@, i as int + 1);
                        }
                        return Err(PlanError::TypeMismatch(self.requirements[i].0.clone()));
                    }
                    met = met && compare_values(a, v);
                },
            }
            i = i + 1;
        }
        proof {
            assert(self@.subrange(0, i as int) =~= self@);
        }
        Ok(met)
    }

    /// The first requirement whose variable has another tag than its bound;
    /// see `first_incompatible`.
    pub(crate) fn incompatible_key(&self, world_state: &WorldState) -> (r: Option<String>)
        requires
            world_state.wf(),
        ensures
            r == first_incompatible(self@, world_state@),
    {
        let mut i: usize = 0;
        while i < self.requirements.len()
            invariant
                0 <= i <= self@.len(),
                world_state.wf(),
                first_incompatible(self@.subrange(0, i as int), world_state@) is None,
            decreases self@.len() - i,
        {
            let ghost pre = self@.subrange(0, i as int + 1);
            proof {
                assert(pre.drop_last() =~= self@.subrange(0, i as int));
            }
            match world_state.get(self.requirements[i].0.as_str()) {
                None => {},
                Some(v) => {
                    if !v.same_kind_as(&self.requirements[i].1.value()) {
                        proof {
                            lemma_incompatible_settles(self@, world_state@, i as int + 1);
                        }
                        return Some(self.requirements[i].0.clone());
                    }
                },
            }
            i = i + 1;
        }
        proof {
            assert(self@.subrange(0, i as int) =~= self@);
        }
        None
    }

    /// The number of requirements.
    pub fn requirement_count(&self) -> (r: usize)
        ensures
            r == self@.len(),
    {
        self.requirements.len()
    }

    /// Whether the goal requires anything.
    pub fn has_requirements(&self) -> (r: bool)
        ensures
            r == (self@.len() > 0),
    {
        self.requirements.len() != 0
    }

    /// The requirements, in name order.
    pub fn requirements(&self) -> (r: &[(String, Assert)])
        ensures
            r@ == self@,
    {
        self.requirements.as_slice()
    }
}

/// A fault met by a prefix of the requirements is the fault of all of them.
pub proof fn lemma_goal_fault_persists(reqs: Seq<(String, Assert)>, s: Seq<(String, Value)>, n: int)
    requires
        0 <= n <= reqs.len(),
        goal_outcome(reqs.subrange(0, n), s) is Err,
    ensures
        goal_outcome(reqs, s) == goal_outcome(reqs.subrange(0, n), s),
    decreases reqs.len() - n,
{
    if n < reqs.len() {
        let longer = reqs.subrange(0, n + 1);
        assert(longer.drop_last() =~= reqs.subrange(0, n));
        lemma_goal_fault_persists(reqs, s, n + 1);
    } else {
        assert(reqs.subrange(0, n) =~= reqs);
    }
}

/// The first incompatible requirement of a prefix is that of the whole goal.
pub proof fn lemma_incompatible_settles(
    reqs: Seq<(String, Assert)>,
    s: Seq<(String, Value)>,
    n: int,
)
    requires
        0 <= n <= reqs.len(),
        first_incompatible(reqs.subrange(0, n), s) is Some,
    ensures
        first_incompatible(reqs, s) == first_incompatible(reqs.subrange(0, n), s),
    decreases reqs.len() - n,
{
    if n < reqs.len() {
        let longer = reqs.subrange(0, n + 1);
        assert(longer.drop_last() =~= reqs.subrange(0, n));
        lemma_incompatible_settles(reqs, s, n + 1);
    } else {
        assert(reqs.subrange(0, n) =~= reqs);
    }
}

impl Default for Goal {
    fn default() -> (r: Self)
        ensures
            r.wf(),
            r@ == Seq::<(String, Assert)>::empty(),
    {
        Goal::new()
    }
}

} // verus!
