use vstd::prelude::*;

use crate::comparison::{comparable, compare_values, holds, Assert};
use crate::effect::Effect;
use crate::error::PlanError;
use crate::keyed::{has_key, lookup};
use crate::value::Value;
use crate::world_state::WorldState;

verus! {

/// A named operation: preconditions that must hold, and at most one effect.
#[derive(Clone, Debug, PartialEq, Eq, Hash)]
pub struct Action {
    pub key: String,
    pub preconditions: Vec<(String, Assert)>,
    pub effect: Option<Effect>,
}

/// The name of the first precondition, in list order, whose variable `s` does
/// not hold.
pub open spec fn first_missing(pre: Seq<(String, Assert)>, s: Seq<(String, Value)>) -> Option<
    String,
>
    decreases pre.len(),
{
    if pre.len() == 0 {
        None
    } else {
        match first_missing(pre.drop_last(), s) {
            Some(k) => Some(k),
            None => if has_key(s, pre.last().0@) {
                None
            } else {
                Some(pre.last().0)
            },
        }
    }
}

/// The name of the first precondition, in list order, whose variable carries
/// a tag its assertion cannot be evaluated on.
pub open spec fn first_mismatch(pre: Seq<(String, Assert)>, s: Seq<(String, Value)>) -> Option<
    String,
>
    decreases pre.len(),
{
    if pre.len() == 0 {
        None
    } else {
        match first_mismatch(pre.drop_last(), s) {
            Some(k) => Some(k),
            None => match lookup(s, pre.last().0@) {
                Some(v) => if comparable(pre.last().1, v) {
                    None
                } else {
                    Some(pre.last().0)
                },
                None => None,
            },
        }
    }
}

/// Every precondition names a variable of `s` whose value passes it.
pub open spec fn all_hold(pre: Seq<(String, Assert)>, s: Seq<(String, Value)>) -> bool {
    forall|i: int|
        0 <= i < pre.len() ==> (#[trigger] lookup(s, pre[i].0@) matches Some(v) && holds(
            pre[i].1,
            v,
        ))
}

/// Checking the preconditions on `s`: a precondition on an absent variable is
/// a fault, whatever the others give; then so is an ordering test across
/// tags; otherwise whether all of them hold.
pub open spec fn preconditions_outcome(
    pre: Seq<(String, Assert)>,
    s: Seq<(String, Value)>,
) -> Result<bool, PlanError> {
    match first_missing(pre, s) {
        Some(k) => Err(PlanError::MissingVariable(k)),
        None => match first_mismatch(pre, s) {
            Some(k) => Err(PlanError::TypeMismatch(k)),
            None => Ok(all_hold(pre, s)),
        },
    }
}

/// The first absent variable of a prefix is the first of the whole list.
pub proof fn lemma_first_missing_settles(
    pre: Seq<(String, Assert)>,
    s: Seq<(String, Value)>,
    n: int,
)
    requires
        0 <= n <= pre.len(),
        first_missing(pre.subrange(0, n), s) is Some,
    ensures
        first_missing(pre, s) == first_missing(pre.subrange(0, n), s),
    decreases pre.len() - n,
{
    if n < pre.len() {
        let longer = pre.subrange(0, n + 1);
        assert(longer.drop_last() =~= pre.subrange(0, n));
        lemma_first_missing_settles(pre, s, n + 1);
    } else {
        assert(pre.subrange(0, n) =~= pre);
    }
}

/// The first mismatch of a prefix is the first of the whole list.
pub proof fn lemma_first_mismatch_settles(
    pre: Seq<(String, Assert)>,
    s: Seq<(String, Value)>,
    n: int,
)
    requires
        0 <= n <= pre.len(),
        first_mismatch(pre.subrange(0, n), s) is Some,
    ensures
        first_mismatch(pre, s) == first_mismatch(pre.subrange(0, n), s),
    decreases pre.len() - n,
{
    if n < pre.len() {
        let longer = pre.subrange(0, n + 1);
        assert(longer.drop_last() =~= pre.subrange(0, n));
        lemma_first_mismatch_settles(pre, s, n + 1);
    } else {
        assert(pre.subrange(0, n) =~= pre);
    }
}

impl Action {
    /// An action named `key`, with no precondition and no effect.
    pub fn new(key: &str) -> (r: Self)
        ensures
            r.key@ == key@,
            r.preconditions@.len() == 0,
            r.effect is None,
    {
        Action { key: key.to_owned(), preconditions: Vec::new(), effect: None }
    }

    /// This action with one more precondition, checked after the others.
    pub fn with_precondition(self, precondition: (&str, Assert)) -> (r: Self)
        ensures
            r.key == self.key,
            r.effect == self.effect,
            r.preconditions@.len() == self.preconditions@.len() + 1,
            r.preconditions@.drop_last() == self.preconditions@,
            r.preconditions@.last().0@ == precondition.0@,
            r.preconditions@.last().1 == precondition.1,
    {
        let (key, compare) = precondition;
        let mut a = self;
        a.preconditions.push((key.to_owned(), compare));
        proof {
            assert(a.preconditions@.drop_last() =~= self.preconditions@);
        }
        a
    }

    /// This action with `effect`, replacing any earlier one.
    pub fn with_effect(self, effect: Effect) -> (r: Self)
        ensures
            r.key == self.key,
            r.preconditions@ == self.preconditions@,
            r.effect == Some(effect),
    {
        let mut a = self;
        a.effect = Some(effect);
        a
    }

    /// Whether every precondition holds in `world_state`. A precondition on an
    /// absent variable is a fault (the first such in list order), whatever the
    /// other preconditions give; so is, next, an ordering test across tags.
    pub fn check_preconditions(&self, world_state: &WorldState) -> (r: Result<bool, PlanError>)
        requires
            world_state.wf(),
        ensures
            r == preconditions_outcome(self.preconditions@, world_state@),
    {
        let ghost pre = self.preconditions@;
        let n = self.preconditions.len();
        let mut i: usize = 0;
        while i < n
            invariant
                0 <= i <= n == pre.len(),
                pre == self.preconditions@,
                world_state.wf(),
                first_missing(pre.subrange(0, i as int), world_state@) is None,
                forall|j: int| 0 <= j < i ==> has_key(world_state@, #[trigger] pre[j].0@),
            decreases n - i,
        {
            proof {
                let sub = pre.subrange(0, i as int + 1);
                assert(sub.drop_last() =~= pre.subrange(0, i as int));
                assert(sub.last() == pre[i as int]);
            }
            let key = &self.preconditions[i].0;
            if !world_state.contains_key(key.as_str()) {
                proof {
                    lemma_first_missing_settles(pre, world_state@, i as int + 1);
                }
                return Err(PlanError::MissingVariable(key.clone()));
            }
            i = i + 1;
        }
        proof {
            assert(pre.subrange(0, n as int) =~= pre);
        }
        let mut i: usize = 0;
        while i < n
            invariant
                0 <= i <= n == pre.len(),
                pre == self.preconditions@,
                world_state.wf(),
                first_missing(pre, world_state@) is None,
                forall|j: int| 0 <= j < n ==> has_key(world_state@, #[trigger] pre[j].0@),
                first_mismatch(pre.subrange(0, i as int), world_state@) is None,
                forall|j: int|
                    0 <= j < i ==> (#[trigger] lookup(world_state@, pre[j].0@) matches Some(v)
                        && comparable(pre[j].1, v)),
            decreases n - i,
        {
            proof {
                let sub = pre.subrange(0, i as int + 1);
                assert(sub.drop_last() =~= pre.subrange(0, i as int));
                assert(sub.last() == pre[i as int]);
                assert(has_key(world_state@, pre[i as int].0@));
            }
            let key = &self.preconditions[i].0;
            let compare = &self.preconditions[i].1;
            match world_state.get(key.as_str()) {
                None => {},
                Some(v) => {
                    if !compare.accepts_kind_of(v) {
                        proof {
                            lemma_first_mismatch_settles(pre, world_state@, i as int + 1);
                        }
                        return Err(PlanError::TypeMismatch(key.clone()));
                    }
                },
            }
            i = i + 1;
        }
        proof {
            assert(pre.subrange(0, n as int) =~= pre);
        }
        let mut i: usize = 0;
        while i < n
            invariant
                0 <= i <= n == pre.len(),
                pre == self.preconditions@,
                world_state.wf(),
                first_missing(pre, world_state@) is None,
                first_mismatch(pre, world_state@) is None,
                forall|j: int|
                    0 <= j < n ==> (#[trigger] lookup(world_state@, pre[j].0@) matches Some(v)
                        && comparable(pre[j].1, v)),
                forall|j: int|
                    0 <= j < i ==> (#[trigger] lookup(world_state@, pre[j].0@) matches Some(v)
                        && holds(pre[j].1, v)),
            decreases n - i,
        {
            let ghost k = pre[i as int].0@;
            assert(lookup(world_state@, k) matches Some(v) && comparable(pre[i as int].1, v));
            match world_state.get(self.preconditions[i].0.as_str()) {
                None => {
                    return Ok(false);
                },
                Some(v) => {
                    if !compare_values(&self.preconditions[i].1, v) {
                        return Ok(false);
                    }
                },
            }
            i = i + 1;
        }
        Ok(true)
    }
}

impl Default for Action {
    fn default() -> (r: Self)
        ensures
            r.key@.len() == 0,
            r.preconditions@.len() == 0,
            r.effect is None,
    {
        Action { key: String::new(), preconditions: Vec::new(), effect: None }
    }
}

} // verus!
