use vstd::prelude::*;

use crate::error::PlanError;
use crate::mutation::{apply_mutator, mutation_outcome, target_of, Mutation};
use crate::value::Value;
use crate::world_state::WorldState;

verus! {

/// What performing an action does: mutations applied in order, and the price
/// the search minimises.
#[derive(Debug, PartialEq, Eq, Hash)]
pub struct Effect {
    pub mutations: Vec<Mutation>,
    pub cost: usize,
}

/// The state that the mutations `ms`, applied in order, turn `s` into, or the
/// first fault met.
pub open spec fn effect_outcome(ms: Seq<Mutation>, s: Seq<(String, Value)>) -> Result<
    Seq<(String, Value)>,
    PlanError,
>
    decreases ms.len(),
{
    if ms.len() == 0 {
        Ok(s)
    } else {
        match effect_outcome(ms.drop_last(), s) {
            Ok(t) => mutation_outcome(ms.last(), t),
            Err(e) => Err(e),
        }
    }
}

/// Whether `r` is `m` aimed at the variable `k`.
pub open spec fn retargeted(m: Mutation, k: Seq<char>, r: Mutation) -> bool {
    target_of(r)@ == k && match (m, r) {
        (Mutation::Assign(_, a), Mutation::Assign(_, b)) => a == b,
        (Mutation::Delete(_), Mutation::Delete(_)) => true,
        (Mutation::Increment(_, a), Mutation::Increment(_, b)) => a == b,
        (Mutation::Decrement(_, a), Mutation::Decrement(_, b)) => a == b,
        _ => false,
    }
}

impl Effect {
    /// No mutation, cost 1.
    pub fn new() -> (r: Self)
        ensures
            r.mutations@.len() == 0,
            r.cost == 1,
    {
        Effect { mutations: Vec::new(), cost: 1 }
    }

    /// This effect followed by `mutation` aimed at `key`.
    pub fn with_mutation(self, key: &str, mutation: Mutation) -> (r: Self)
        ensures
            r.cost == self.cost,
            r.mutations@.len() == self.mutations@.len() + 1,
            r.mutations@.drop_last() == self.mutations@,
            retargeted(mutation, key@, r.mutations@.last()),
    {
        let k = key.to_owned();
        let m = match mutation {
            Mutation::Assign(_, value) => Mutation::Assign(k, value),
            Mutation::Delete(_) => Mutation::Delete(k),
            Mutation::Increment(_, value) => Mutation::Increment(k, value),
            Mutation::Decrement(_, value) => Mutation::Decrement(k, value),
        };
        let mut s = self;
        s.mutations.push(m);
        proof {
            assert(s.mutations@.drop_last() =~= self.mutations@);
        }
        s
    }

    /// This effect with the given cost.
    pub fn with_cost(self, cost: usize) -> (r: Self)
        ensures
            r.mutations@ == self.mutations@,
            r.cost == cost,
    {
        let mut s = self;
        s.cost = cost;
        s
    }

    /// Applies the mutations in order. On a fault the state is left as it was.
    pub fn apply_to(&self, world_state: &mut WorldState) -> (r: Result<(), PlanError>)
        requires
            old(world_state).wf(),
        ensures
            final(world_state).wf(),
            match effect_outcome(self.mutations@, old(world_state)@) {
                Ok(s) => r is Ok && final(world_state)@ == s,
                Err(e) => r == Err::<(), PlanError>(e) && final(world_state)@ == old(
                    world_state,
                )@,
            },
    {
        let mut next = world_state.clone();
        let mut i: usize = 0;
        while i < self.mutations.len()
            invariant
                0 <= i <= self.mutations@.len(),
                next.wf(),
                world_state.wf(),
                effect_outcome(self.mutations@.subrange(0, i as int), world_state@) == Ok::<
                    Seq<(String, Value)>,
                    PlanError,
                >(next@),
            decreases self.mutations@.len() - i,
        {
            let ghost pre = self.mutations@.subrange(0, i as int + 1);
            proof {
                assert(pre.drop_last() =~= self.mutations@.subrange(0, i as int));
            }
            match apply_mutator(&mut next, &self.mutations[i]) {
                Ok(()) => {},
                Err(e) => {
                    proof {
                        assert(pre =~= self.mutations@.subrange(0, i as int + 1));
                        lemma_fault_persists(self.mutations@, world_state@, i as int + 1);
                    }
                    return Err(e);
                },
            }
            i = i + 1;
        }
        proof {
            assert(self.mutations@.subrange(0, i as int) =~= self.mutations@);
        }
        *world_state = next;
        Ok(())
    }

    /// The number of mutations.
    pub fn mutation_count(&self) -> (r: usize)
        ensures
            r == self.mutations@.len(),
    {
        self.mutations.len()
    }

    /// Whether the effect mutates anything.
    pub fn has_mutations(&self) -> (r: bool)
        ensures
            r == (self.mutations@.len() > 0),
    {
        self.mutations.len() != 0
    }
}

/// A fault met by a prefix of the mutations is the fault of all of them.
pub proof fn lemma_fault_persists(ms: Seq<Mutation>, s: Seq<(String, Value)>, n: int)
    requires
        0 <= n <= ms.len(),
        effect_outcome(ms.subrange(0, n), s) is Err,
    ensures
        effect_outcome(ms, s) == effect_outcome(ms.subrange(0, n), s),
    decreases ms.len() - n,
{
    if n < ms.len() {
        let longer = ms.subrange(0, n + 1);
        assert(longer.drop_last() =~= ms.subrange(0, n));
        lemma_fault_persists(ms, s, n + 1);
    } else {
        assert(ms.subrange(0, n) =~= ms);
    }
}

impl Clone for Effect {
    fn clone(&self) -> (r: Self)
        ensures
            r.mutations@ == self.mutations@,
            r.cost == self.cost,
    {
        let mutations = self.mutations.clone();
        proof {
            assert(mutations@ =~= self.mutations@);
        }
        Effect { mutations, cost: self.cost }
    }
}

impl Default for Effect {
    fn default() -> (r: Self)
        ensures
            r.mutations@.len() == 0,
            r.cost == 1,
    {
        Effect::new()
    }
}

} // verus!
