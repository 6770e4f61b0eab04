use vstd::prelude::*;

use crate::keyed::{
    discard, find_key, has_key, lemma_discard, lemma_key_index, lemma_ordered_unique,
    lemma_store, lookup, ordered_keys, store, store_all, store_entry,
};
use crate::goal::{goal_compatible, goal_distance, Goal};
use crate::value::Value;

verus! {

/// A point of the search space: named variables and their values, each name
/// at most once, kept in increasing name order.
#[derive(Debug, PartialEq, Eq, Hash)]
pub struct WorldState {
    entries: Vec<(String, Value)>,
}

impl View for WorldState {
    type V = Seq<(String, Value)>;

    closed spec fn view(&self) -> Seq<(String, Value)> {
        self.entries@
    }
}

impl WorldState {
    /// Names are unique and in increasing order.
    pub open spec fn wf(&self) -> bool {
        ordered_keys(self@)
    }

    /// An empty state.
    pub fn new() -> (r: Self)
        ensures
            r.wf(),
            r@ == Seq::<(String, Value)>::empty(),
    {
        WorldState { entries: Vec::new() }
    }

    /// This state with `key` set to `value`.
    pub fn set(self, key: &str, value: Value) -> (r: Self)
        requires
            self.wf(),
        ensures
            r.wf(),
            lookup(r@, key@) == Some(value),
            forall|q: Seq<char>| q != key@ ==> lookup(r@, q) == lookup(self@, q),
            forall|q: Seq<char>| has_key(r@, q) <==> (q == key@ || has_key(self@, q)),
    {
        let mut s = self;
        let k = key.to_owned();
        proof {
            lemma_store(s@, k, value);
        }
        s.insert(k, value);
        s
    }

    /// A state holding each pair, a later pair overriding an earlier one of
    /// the same name.
    pub fn from_pairs(pairs: Vec<(String, Value)>) -> (r: Self)
        ensures
            r.wf(),
            r@ == store_all(pairs@),
            forall|q: Seq<char>| has_key(r@, q) <==> has_key(pairs@, q),
    {
        let mut s = WorldState::new();
        let mut i: usize = 0;
        while i < pairs.len()
            invariant
                0 <= i <= pairs@.len(),
                s.wf(),
                s@ == store_all(pairs@.subrange(0, i as int)),
                forall|q: Seq<char>| has_key(s@, q) <==> has_key(pairs@.subrange(0, i as int), q),
            decreases pairs@.len() - i,
        {
            let k = pairs[i].0.clone();
            let v = pairs[i].1;
            let ghost before = s@;
            proof {
                lemma_store(s@, k, v);
                let post = pairs@.subrange(0, i as int + 1);
                assert(post.drop_last() =~= pairs@.subrange(0, i as int));
                assert(post.last() == pairs@[i as int]);
            }
            s.insert(k, v);
            proof {
                let pre = pairs@.subrange(0, i as int);
                let post = pairs@.subrange(0, i as int + 1);
                assert forall|q: Seq<char>| has_key(post, q) <==> (q == pairs@[i as int].0@ || has_key(pre, q)) by {
                    if has_key(pre, q) {
                        let j = choose|j: int| 0 <= j < pre.len() && pre[j].0@ == q;
                        assert(post[j] == pre[j]);
                    }
                    if has_key(post, q) {
                        let j = choose|j: int| 0 <= j < post.len() && post[j].0@ == q;
                        if j < i {
                            assert(pre[j] == post[j]);
                        }
                    }
                    assert(post[i as int] == pairs@[i as int]);
                }
                assert forall|q: Seq<char>| has_key(s@, q) <==> has_key(post, q) by {
                    assert(has_key(s@, q) <==> (q == k@ || has_key(before, q)));
                    assert(has_key(before, q) <==> has_key(pre, q));
                }
            }
            i = i + 1;
        }
        assert(pairs@.subrange(0, pairs@.len() as int) =~= pairs@);
        s
    }

    /// Stores `value` under `key`, in place when the name is already held.
    pub(crate) fn insert(&mut self, key: String, value: Value)
        requires
            old(self).wf(),
        ensures
            final(self).wf(),
            final(self)@ == store(old(self)@, key, value),
    {
        store_entry(&mut self.entries, key, value);
    }

    /// Drops the variable `key`, if held.
    pub(crate) fn remove(&mut self, key: &str)
        requires
            old(self).wf(),
        ensures
            final(self).wf(),
            final(self)@ == discard(old(self)@, key@),
    {
        proof {
            lemma_discard(self@, key@);
        }
        match find_key(&self.entries, key) {
            Some(i) => {
                self.entries.remove(i);
            },
            None => {},
        }
    }

    /// The value of `key`, if held.
    pub fn get(&self, key: &str) -> (r: Option<&Value>)
        requires
            self.wf(),
        ensures
            r is Some <==> has_key(self@, key@),
            r matches Some(v) ==> lookup(self@, key@) == Some(*v),
    {
        match find_key(&self.entries, key) {
            Some(i) => {
                proof {
                    lemma_ordered_unique(self@);
                    lemma_key_index(self@, i as int);
                }
                Some(&self.entries[i].1)
            },
            None => None,
        }
    }

    /// Whether `key` is held.
    pub fn contains_key(&self, key: &str) -> (r: bool)
        requires
            self.wf(),
        ensures
            r == has_key(self@, key@),
    {
        find_key(&self.entries, key).is_some()
    }

    /// The number of variables.
    pub fn len(&self) -> (r: usize)
        ensures
            r == self@.len(),
    {
        self.entries.len()
    }

    /// Whether no variable is held.
    pub fn is_empty(&self) -> (r: bool)
        ensures
            r == (self@.len() == 0),
    {
        self.entries.len() == 0
    }

    /// How far this state is from `goal`: over the requirements, the distance
    /// from the variable to the bound, or 1 for an absent variable; the sum
    /// saturates at `u64::MAX`.
    pub fn distance_to_goal(&self, goal: &Goal) -> (r: u64)
        requires
            self.wf(),
            goal_compatible(goal@, self@),
        ensures
            r as nat == if goal_distance(goal@, self@) > u64::MAX {
                u64::MAX as nat
            } else {
                goal_distance(goal@, self@)
            },
    {
        let reqs = goal.requirements();
        let mut total: u64 = 0;
        let mut i: usize = 0;
        while i < reqs.len()
            invariant
                0 <= i <= reqs@.len(),
                reqs@ == goal@,
                self.wf(),
                goal_compatible(goal@, self@),
                total as nat == if goal_distance(reqs@.subrange(0, i as int), self@) > u64::MAX {
                    u64::MAX as nat
                } else {
                    goal_distance(reqs@.subrange(0, i as int), self@)
                },
            decreases reqs@.len() - i,
        {
            let ghost pre = reqs@.subrange(0, i as int + 1);
            proof {
                assert(pre.drop_last() =~= reqs@.subrange(0, i as int));
                assert(pre.last() == reqs@[i as int]);
            }
            let term: u64 = match self.get(reqs[i].0.as_str()) {
                None => 1,
                Some(v) => {
                    assert(lookup(self@, reqs@[i as int].0@) matches Some(w) ==> crate::value::same_kind(w, crate::comparison::bound_of(reqs@[i as int].1)));
                    v.distance(&reqs[i].1.value())
                },
            };
            total = total.saturating_add(term);
            i = i + 1;
        }
        proof {
            assert(reqs@.subrange(0, i as int) =~= reqs@);
        }
        total
    }

    /// The variables and their values, in name order.
    pub fn iter(&self) -> (r: &[(String, Value)])
        ensures
            r@ == self@,
    {
        self.entries.as_slice()
    }
}

impl Clone for WorldState {
    fn clone(&self) -> (r: Self)
        ensures
            r@ == self@,
    {
        let mut entries: Vec<(String, Value)> = Vec::new();
        let mut i: usize = 0;
        while i < self.entries.len()
            invariant
                0 <= i <= self@.len(),
                entries@ == self@.subrange(0, i as int),
            decreases self@.len() - i,
        {
            entries.push((self.entries[i].0.clone(), self.entries[i].1));
            i = i + 1;
        }
        assert(self@.subrange(0, self@.len() as int) =~= self@);
        WorldState { entries }
    }
}

impl Default for WorldState {
    fn default() -> (r: Self)
        ensures
            r.wf(),
            r@ == Seq::<(String, Value)>::empty(),
    {
        WorldState::new()
    }
}

} // verus!
