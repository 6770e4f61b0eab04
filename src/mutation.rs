use vstd::prelude::*;

use crate::error::PlanError;
use crate::keyed::{discard, lookup, store};
use crate::value::{sum_fits, value_sum, Value};
use crate::world_state::WorldState;

verus! {

/// An operation on one variable of a state.
#[derive(Debug, PartialEq, Eq, Hash)]
pub enum Mutation {
    /// Set the variable to the value, adding it if absent.
    Assign(String, Value),
    /// Remove the variable, if present.
    Delete(String),
    /// Add the amount to the variable, if present.
    Increment(String, Value),
    /// Subtract the amount from the variable, if present.
    Decrement(String, Value),
}

/// The variable a mutation targets.
pub open spec fn target_of(m: Mutation) -> String {
    match m {
        Mutation::Assign(k, _) => k,
        Mutation::Delete(k) => k,
        Mutation::Increment(k, _) => k,
        Mutation::Decrement(k, _) => k,
    }
}

/// Adds (or, with `negate`, subtracts) `amount` to the variable `k` of `s`:
/// nothing happens when `k` is absent.
pub open spec fn shift_outcome(
    s: Seq<(String, Value)>,
    k: String,
    amount: Value,
    negate: bool,
) -> Result<Seq<(String, Value)>, PlanError> {
    match lookup(s, k@) {
        None => Ok(s),
        Some(cur) => match (cur, amount) {
            (Value::I64(_), Value::I64(_)) => if sum_fits(cur, amount, negate) {
                Ok(store(s, k, value_sum(cur, amount, negate)))
            } else {
                Err(PlanError::Overflow(k))
            },
            _ => Err(PlanError::TypeMismatch(k)),
        },
    }
}

/// The state that `m` turns `s` into, or the fault it meets.
pub open spec fn mutation_outcome(m: Mutation, s: Seq<(String, Value)>) -> Result<
    Seq<(String, Value)>,
    PlanError,
> {
    match m {
        Mutation::Assign(k, v) => Ok(store(s, k, v)),
        Mutation::Delete(k) => Ok(discard(s, k@)),
        Mutation::Increment(k, d) => shift_outcome(s, k, d, false),
        Mutation::Decrement(k, d) => shift_outcome(s, k, d, true),
    }
}

impl Mutation {
    /// Sets `key` to `value`.
    pub fn set(key: &str, value: Value) -> (r: Self)
        ensures
            r matches Mutation::Assign(k, v) && k@ == key@ && v == value,
    {
        Mutation::Assign(key.to_owned(), value)
    }

    /// Removes `key`.
    pub fn delete(key: &str) -> (r: Self)
        ensures
            r matches Mutation::Delete(k) && k@ == key@,
    {
        Mutation::Delete(key.to_owned())
    }

    /// Adds `value` to `key`.
    pub fn increment(key: &str, value: Value) -> (r: Self)
        ensures
            r matches Mutation::Increment(k, v) && k@ == key@ && v == value,
    {
        Mutation::Increment(key.to_owned(), value)
    }

    /// Subtracts `value` from `key`.
    pub fn decrement(key: &str, value: Value) -> (r: Self)
        ensures
            r matches Mutation::Decrement(k, v) && k@ == key@ && v == value,
    {
        Mutation::Decrement(key.to_owned(), value)
    }
}

impl Clone for Mutation {
    fn clone(&self) -> (r: Self)
        ensures
            r == *self,
    {
        match self {
            Mutation::Assign(k, v) => Mutation::Assign(k.clone(), *v),
            Mutation::Delete(k) => Mutation::Delete(k.clone()),
            Mutation::Increment(k, v) => Mutation::Increment(k.clone(), *v),
            Mutation::Decrement(k, v) => Mutation::Decrement(k.clone(), *v),
        }
    }
}

fn shift(
    world_state: &mut WorldState,
    key: &String,
    amount: Value,
    negate: bool,
) -> (r: Result<(), PlanError>)
    requires
        old(world_state).wf(),
    ensures
        final(world_state).wf(),
        match shift_outcome(old(world_state)@, *key, amount, negate) {
            Ok(s) => r is Ok && final(world_state)@ == s,
            Err(e) => r == Err::<(), PlanError>(e) && final(world_state)@ == old(world_state)@,
        },
{
    let current = match world_state.get(key.as_str()) {
        Some(v) => *v,
        None => {
            return Ok(());
        },
    };
    match (current, amount) {
        (Value::I64(_), Value::I64(_)) => {
            let next = if negate {
                current.sub(amount)
            } else {
                current.add(amount)
            };
            match next {
                Some(v) => {
                    world_state.insert(key.clone(), v);
                    Ok(())
                },
                None => Err(PlanError::Overflow(key.clone())),
            }
        },
        _ => Err(PlanError::TypeMismatch(key.clone())),
    }
}

/// Applies `mutator` to `world_state`. On a fault the state is left as it was.
pub fn apply_mutator(world_state: &mut WorldState, mutator: &Mutation) -> (r: Result<(), PlanError>)
    requires
        old(world_state).wf(),
    ensures
        final(world_state).wf(),
        match mutation_outcome(*mutator, old(world_state)@) {
            Ok(s) => r is Ok && final(world_state)@ == s,
            Err(e) => r == Err::<(), PlanError>(e) && final(world_state)@ == old(world_state)@,
        },
        (mutator is Increment || mutator is Decrement) && lookup(
            old(world_state)@,
            target_of(*mutator)@,
        ) is None ==> r is Ok && final(world_state)@ == old(world_state)@,
{
    match mutator {
        Mutation::Assign(key, value) => {
            world_state.insert(key.clone(), *value);
            Ok(())
        },
        Mutation::Delete(key) => {
            world_state.remove(key.as_str());
            Ok(())
        },
        Mutation::Increment(key, value) => shift(world_state, key, *value, false),
        Mutation::Decrement(key, value) => shift(world_state, key, *value, true),
    }
}

} // verus!
