use vstd::prelude::*;

use crate::action::{preconditions_outcome, Action};
use crate::comparison::Assert;
use crate::effect::{effect_outcome, Effect};
use crate::error::PlanError;
use crate::goal::{first_incompatible, goal_compatible, goal_distance, goal_met, goal_outcome, lemma_goal_outcome, Goal};
use crate::keyed::{lemma_discard, lemma_store, ordered_keys};
use crate::mutation::{mutation_outcome, Mutation};
use crate::node::{cost_of, mutations_of, state_of, views, Node, NodeView};
use crate::value::Value;
use crate::world_state::WorldState;

verus! {

/// The state that performing `a` in `s` leads to: `None` when a precondition
/// fails or the action has no effect, an error on a fault.
pub open spec fn step_outcome(a: Action, s: Seq<(String, Value)>) -> Result<
    Option<Seq<(String, Value)>>,
    PlanError,
> {
    match preconditions_outcome(a.preconditions@, s) {
        Err(e) => Err(e),
        Ok(false) => Ok(None),
        Ok(true) => match a.effect {
            None => Ok(None),
            Some(eff) => match effect_outcome(eff.mutations@, s) {
                Err(e) => Err(e),
                Ok(t) => Ok(Some(t)),
            },
        },
    }
}

/// The successors of a node at state `s`, one per viable action in list
/// order, or the first fault met.
pub open spec fn expansion(s: Seq<(String, Value)>, actions: Seq<Action>) -> Result<
    Seq<NodeView>,
    PlanError,
>
    decreases actions.len(),
{
    if actions.len() == 0 {
        Ok(Seq::empty())
    } else {
        match expansion(s, actions.drop_last()) {
            Err(e) => Err(e),
            Ok(prev) => match step_outcome(actions.last(), s) {
                Err(e) => Err(e),
                Ok(None) => Ok(prev),
                Ok(Some(t)) => {
                    let a = actions.last();
                    let eff = a.effect.unwrap();
                    Ok(prev.push(NodeView::Step(a.key, eff.mutations@, eff.cost, t)))
                },
            },
        }
    }
}

/// Whether `m` is a successor of `n`.
pub open spec fn edge(n: NodeView, m: NodeView, actions: Seq<Action>) -> bool {
    expansion(state_of(n), actions) matches Ok(vs) && vs.contains(m)
}

/// Whether `p` is a path of the search graph.
pub open spec fn is_walk(p: Seq<NodeView>, actions: Seq<Action>) -> bool {
    &&& p.len() >= 1
    &&& forall|i: int| 0 <= i < p.len() - 1 ==> edge(#[trigger] p[i], p[i + 1], actions)
}

/// The summed cost of the nodes of `p`.
pub open spec fn walk_cost(p: Seq<NodeView>) -> nat
    decreases p.len(),
{
    if p.len() == 0 {
        0
    } else {
        walk_cost(p.drop_last()) + cost_of(p.last())
    }
}

/// The first successor, in order, with a variable whose tag differs from
/// its goal requirement's bound (so that its estimate is undefined), as the
/// name of that variable.
pub open spec fn incompatible_successor(vs: Seq<NodeView>, reqs: Seq<(String, Assert)>) -> Option<
    String,
>
    decreases vs.len(),
{
    if vs.len() == 0 {
        None
    } else {
        match incompatible_successor(vs.drop_last(), reqs) {
            Some(k) => Some(k),
            None => first_incompatible(reqs, state_of(vs.last())),
        }
    }
}

/// The fault met while expanding a node at state `s`: one met by an action,
/// or else a successor whose estimate is undefined.
pub open spec fn expansion_fault(
    s: Seq<(String, Value)>,
    actions: Seq<Action>,
    reqs: Seq<(String, Assert)>,
) -> Option<PlanError> {
    match expansion(s, actions) {
        Err(e) => Some(e),
        Ok(vs) => match incompatible_successor(vs, reqs) {
            Some(k) => Some(PlanError::TypeMismatch(k)),
            None => None,
        },
    }
}

/// The fault met when the search reaches `n`: an ordering goal test across
/// tags, or, when the goal is not met, a fault while expanding.
pub open spec fn stop_fault(n: NodeView, actions: Seq<Action>, reqs: Seq<(String, Assert)>) -> Option<
    PlanError,
> {
    match goal_outcome(reqs, state_of(n)) {
        Err(e) => Some(e),
        Ok(true) => None,
        Ok(false) => expansion_fault(state_of(n), actions, reqs),
    }
}

/// Whether the search ends on reaching `n`: the goal is met there, or a fault
/// is met.
pub open spec fn halts(n: NodeView, actions: Seq<Action>, reqs: Seq<(String, Assert)>) -> bool {
    goal_outcome(reqs, state_of(n)) == Ok::<bool, PlanError>(true) || stop_fault(
        n,
        actions,
        reqs,
    ) is Some
}

/// The states that replaying the effects of `steps` in order from `s` goes
/// through, ending at the last one, or the first fault.
pub open spec fn replay(s: Seq<(String, Value)>, steps: Seq<NodeView>) -> Result<
    Seq<(String, Value)>,
    PlanError,
>
    decreases steps.len(),
{
    if steps.len() == 0 {
        Ok(s)
    } else {
        match replay(s, steps.drop_last()) {
            Ok(t) => effect_outcome(mutations_of(steps.last()), t),
            Err(e) => Err(e),
        }
    }
}

/// The transition nodes of `p`, in order.
pub open spec fn steps_of(p: Seq<NodeView>) -> Seq<NodeView>
    decreases p.len(),
{
    if p.len() == 0 {
        Seq::empty()
    } else if p.last() is Step {
        steps_of(p.drop_last()).push(p.last())
    } else {
        steps_of(p.drop_last())
    }
}

/// A mutation keeps names unique and ordered.
pub proof fn lemma_mutation_keeps_unique(m: Mutation, s: Seq<(String, Value)>)
    requires
        ordered_keys(s),
    ensures
        mutation_outcome(m, s) matches Ok(t) ==> ordered_keys(t),
{
    match m {
        Mutation::Assign(k, v) => lemma_store(s, k, v),
        Mutation::Delete(k) => lemma_discard(s, k@),
        Mutation::Increment(k, d) => {
            if let Some(cur) = crate::keyed::lookup(s, k@) {
                lemma_store(s, k, crate::value::value_sum(cur, d, false));
            }
        },
        Mutation::Decrement(k, d) => {
            if let Some(cur) = crate::keyed::lookup(s, k@) {
                lemma_store(s, k, crate::value::value_sum(cur, d, true));
            }
        },
    }
}

/// An effect keeps names unique and ordered.
pub proof fn lemma_effect_keeps_unique(ms: Seq<Mutation>, s: Seq<(String, Value)>)
    requires
        ordered_keys(s),
    ensures
        effect_outcome(ms, s) matches Ok(t) ==> ordered_keys(t),
    decreases ms.len(),
{
    if ms.len() > 0 {
        lemma_effect_keeps_unique(ms.drop_last(), s);
        if let Ok(t) = effect_outcome(ms.drop_last(), s) {
            lemma_mutation_keeps_unique(ms.last(), t);
        }
    }
}

/// Each successor is a transition whose effect, applied to the state expanded,
/// gives the successor's state.
pub proof fn lemma_expansion_members(s: Seq<(String, Value)>, actions: Seq<Action>)
    ensures
        expansion(s, actions) matches Ok(vs) ==> forall|j: int|
            0 <= j < vs.len() ==> (#[trigger] vs[j]) is Step && effect_outcome(
                mutations_of(vs[j]),
                s,
            ) == Ok::<Seq<(String, Value)>, PlanError>(state_of(vs[j])),
    decreases actions.len(),
{
    if actions.len() > 0 {
        lemma_expansion_members(s, actions.drop_last());
    }
}

/// Every node of a walk from a well-formed state is well formed.
pub proof fn lemma_walk_unique(p: Seq<NodeView>, actions: Seq<Action>)
    requires
        is_walk(p, actions),
        ordered_keys(state_of(p[0])),
    ensures
        forall|i: int| 0 <= i < p.len() ==> ordered_keys(#[trigger] state_of(p[i])),
    decreases p.len(),
{
    if p.len() > 1 {
        let q = p.drop_last();
        assert forall|i: int| 0 <= i < q.len() - 1 implies edge(#[trigger] q[i], q[i + 1], actions) by {
            assert(edge(p[i], p[i + 1], actions));
        }
        lemma_walk_unique(q, actions);
        let n = p.len() - 2;
        assert(edge(p[n], p[n + 1], actions));
        lemma_expansion_members(state_of(p[n]), actions);
        let vs = expansion(state_of(p[n]), actions)->Ok_0;
        let j = choose|j: int| 0 <= j < vs.len() && vs[j] == p[n + 1];
        assert(vs[j] == p[n + 1]);
        assert(ordered_keys(state_of(q[n])));
        lemma_effect_keeps_unique(mutations_of(p[n + 1]), state_of(p[n]));
        assert forall|i: int| 0 <= i < p.len() implies ordered_keys(#[trigger] state_of(p[i])) by {
            if i < q.len() {
                assert(state_of(q[i]) == state_of(p[i]));
            }
        }
    }
}

/// Replaying, in order, the effects of a plan's transitions on its initial
/// state yields exactly the plan's final state.
pub proof fn lemma_replay_reaches_final_state(
    start: Seq<(String, Value)>,
    actions: Seq<Action>,
    p: Seq<NodeView>,
)
    requires
        is_walk(p, actions),
        p[0] == NodeView::Start(start),
    ensures
        replay(start, steps_of(p)) == Ok::<Seq<(String, Value)>, PlanError>(state_of(p.last())),
    decreases p.len(),
{
    if p.len() == 1 {
        assert(p.drop_last().len() == 0);
        assert(steps_of(p) == steps_of(p.drop_last()));
    } else {
        let q = p.drop_last();
        assert forall|i: int| 0 <= i < q.len() - 1 implies edge(#[trigger] q[i], q[i + 1], actions) by {
            assert(edge(p[i], p[i + 1], actions));
        }
        lemma_replay_reaches_final_state(start, actions, q);
        let n = p.len() - 2;
        assert(edge(p[n], p[n + 1], actions));
        lemma_expansion_members(state_of(p[n]), actions);
        let vs = expansion(state_of(p[n]), actions)->Ok_0;
        let j = choose|j: int| 0 <= j < vs.len() && vs[j] == p[n + 1];
        assert(vs[j] == p[n + 1]);
        assert(q.last() == p[n]);
        assert(steps_of(p) == steps_of(q).push(p.last()));
        assert(steps_of(p).drop_last() =~= steps_of(q));
    }
}

/// A fault met by a prefix of the actions is the fault of all of them.
pub proof fn lemma_expansion_fault_persists(s: Seq<(String, Value)>, actions: Seq<Action>, n: int)
    requires
        0 <= n <= actions.len(),
        expansion(s, actions.subrange(0, n)) is Err,
    ensures
        expansion(s, actions) == expansion(s, actions.subrange(0, n)),
    decreases actions.len() - n,
{
    if n < actions.len() {
        let longer = actions.subrange(0, n + 1);
        assert(longer.drop_last() =~= actions.subrange(0, n));
        lemma_expansion_fault_persists(s, actions, n + 1);
    } else {
        assert(actions.subrange(0, n) =~= actions);
    }
}

/// Costs of prefixes of a walk do not exceed the whole.
pub proof fn lemma_walk_cost_prefix(p: Seq<NodeView>, n: int)
    requires
        0 <= n <= p.len(),
    ensures
        walk_cost(p.subrange(0, n)) <= walk_cost(p),
    decreases p.len() - n,
{
    if n < p.len() {
        let longer = p.subrange(0, n + 1);
        assert(longer.drop_last() =~= p.subrange(0, n));
        lemma_walk_cost_prefix(p, n + 1);
    } else {
        assert(p.subrange(0, n) =~= p);
    }
}

/// The successors of `node`, each with its cost, or the first fault met.
fn expand(node: &Node, actions: &[Action]) -> (r: Result<Vec<(Node, u128)>, PlanError>)
    requires
        node.wf(),
    ensures
        match expansion(state_of(node@), actions@) {
            Err(e) => r == Err::<Vec<(Node, u128)>, PlanError>(e),
            Ok(vs) => r matches Ok(out) && out@.len() == vs.len() && forall|i: int|
                0 <= i < vs.len() ==> (#[trigger] out@[i]).0@ == vs[i] && out@[i].1 == cost_of(
                    vs[i],
                ) && out@[i].0.wf(),
        },
{
    let state = node.state();
    let mut out: Vec<(Node, u128)> = Vec::new();
    let mut i: usize = 0;
    while i < actions.len()
        invariant
            0 <= i <= actions@.len(),
            state@ == state_of(node@),
            state.wf(),
            expansion(state@, actions@.subrange(0, i as int)) matches Ok(vs) && out@.len()
                == vs.len() && forall|j: int|
                0 <= j < vs.len() ==> (#[trigger] out@[j]).0@ == vs[j] && out@[j].1 == cost_of(
                    vs[j],
                ) && out@[j].0.wf(),
        decreases actions@.len() - i,
    {
        let ghost pre = actions@.subrange(0, i as int + 1);
        proof {
            assert(pre.drop_last() =~= actions@.subrange(0, i as int));
            assert(pre.last() == actions@[i as int]);
        }
        let action = &actions[i];
        match action.check_preconditions(state) {
            Err(e) => {
                proof {
                    lemma_expansion_fault_persists(state@, actions@, i as int + 1);
                }
                return Err(e);
            },
            Ok(false) => {},
            Ok(true) => {
                match &action.effect {
                    None => {},
                    Some(effect) => {
                        let mut next = state.clone();
                        match effect.apply_to(&mut next) {
                            Err(e) => {
                                proof {
                                    lemma_expansion_fault_persists(state@, actions@, i as int + 1);
                                }
                                return Err(e);
                            },
                            Ok(()) => {
                                let cost = effect.cost as u128;
                                let succ = Node::Effect((action.key.clone(), effect.clone(), next));
                                out.push((succ, cost));
                            },
                        }
                    },
                }
            },
        }
        i = i + 1;
    }
    proof {
        assert(actions@.subrange(0, i as int) =~= actions@);
    }
    Ok(out)
}

/// The fault met while expanding `node`; see `expansion_fault`.
fn expansion_fault_at(node: &Node, actions: &[Action], goal: &Goal) -> (r: Option<PlanError>)
    requires
        node.wf(),
    ensures
        r == expansion_fault(state_of(node@), actions@, goal@),
{
    let out = match expand(node, actions) {
        Err(e) => {
            return Some(e);
        },
        Ok(out) => out,
    };
    let ghost vs = expansion(state_of(node@), actions@)->Ok_0;
    let mut i: usize = 0;
    while i < out.len()
        invariant
            0 <= i <= out@.len() == vs.len(),
            expansion(state_of(node@), actions@) == Ok::<Seq<NodeView>, PlanError>(vs),
            forall|j: int|
                0 <= j < vs.len() ==> (#[trigger] out@[j]).0@ == vs[j] && out@[j].0.wf(),
            incompatible_successor(vs.subrange(0, i as int), goal@) is None,
        decreases out@.len() - i,
    {
        let ghost pre = vs.subrange(0, i as int + 1);
        proof {
            assert(pre.drop_last() =~= vs.subrange(0, i as int));
            assert(pre.last() == vs[i as int]);
            assert(out@[i as int].0@ == vs[i as int]);
        }
        match goal.incompatible_key(out[i].0.state()) {
            Some(k) => {
                proof {
                    lemma_incompatible_successor_settles(vs, goal@, i as int + 1);
                }
                return Some(PlanError::TypeMismatch(k));
            },
            None => {},
        }
        i = i + 1;
    }
    proof {
        assert(vs.subrange(0, i as int) =~= vs);
    }
    None
}

/// The first incompatible successor of a prefix is that of the whole list.
pub proof fn lemma_incompatible_successor_settles(
    vs: Seq<NodeView>,
    reqs: Seq<(String, Assert)>,
    n: int,
)
    requires
        0 <= n <= vs.len(),
        incompatible_successor(vs.subrange(0, n), reqs) is Some,
    ensures
        incompatible_successor(vs, reqs) == incompatible_successor(vs.subrange(0, n), reqs),
    decreases vs.len() - n,
{
    if n < vs.len() {
        let longer = vs.subrange(0, n + 1);
        assert(longer.drop_last() =~= vs.subrange(0, n));
        lemma_incompatible_successor_settles(vs, reqs, n + 1);
    } else {
        assert(vs.subrange(0, n) =~= vs);
    }
}

/// The successors of `node` with their costs. The search expands only nodes
/// that failed the stop test, so expanding meets no fault here.
fn successors(node: &Node, actions: &[Action], goal: &Goal) -> (r: Vec<(Node, u128)>)
    requires
        node.wf(),
        !halts(node@, actions@, goal@),
    ensures
        expansion(state_of(node@), actions@) matches Ok(vs) && r@.len() == vs.len() && forall|
            i: int,
        |
            0 <= i < vs.len() ==> (#[trigger] r@[i]).0@ == vs[i] && r@[i].1 == cost_of(vs[i])
                && r@[i].0.wf(),
{
    match expand(node, actions) {
        Ok(out) => out,
        Err(_) => Vec::new(),
    }
}

/// Whether the search ends at `node`: the goal is met there or a fault is met.
fn stops_at(node: &Node, actions: &[Action], goal: &Goal) -> (r: bool)
    requires
        node.wf(),
    ensures
        r == halts(node@, actions@, goal@),
{
    match goal.check(node.state()) {
        Err(_) => true,
        Ok(true) => true,
        Ok(false) => expansion_fault_at(node, actions, goal).is_some(),
    }
}

/// The estimate that guides the search: the state's distance to the goal
/// (see `WorldState::distance_to_goal`). The search only estimates successors
/// of nodes that failed the stop test, which are compatible with the goal;
/// elsewhere the estimate is 0.
fn heuristic(node: &Node, goal: &Goal) -> (r: u128)
    requires
        node.wf(),
    ensures
        goal_compatible(goal@, state_of(node@)) ==> r == if goal_distance(
            goal@,
            state_of(node@),
        ) > u64::MAX {
            u64::MAX as nat
        } else {
            goal_distance(goal@, state_of(node@))
        },
{
    let state = node.state();
    proof {
        crate::goal::lemma_first_incompatible(goal@, state@);
    }
    if goal.incompatible_key(state).is_none() {
        state.distance_to_goal(goal) as u128
    } else {
        0
    }
}

/// The path that the A* search of `astar_search` returns from `start`, or
/// `None`: a function of the contents of its arguments alone.
pub uninterp spec fn search_outcome(
    start: NodeView,
    actions: Seq<Action>,
    reqs: Seq<(String, Assert)>,
) -> Option<Seq<NodeView>>;

/// Relies on pathfinding::directed::astar::astar, which searches from `start`
/// through the nodes that `successors` lists, testing each node it takes from
/// its frontier with `stops_at` before expanding it; it calls `successors`
/// only on nodes that failed that test, and `heuristic` only on the
/// successors it lists. A path it returns starts
/// at a clone of `start`, goes from each node to one of the successors listed
/// for it, passes only through nodes that failed the test (those are the
/// nodes it expanded) and ends at a node that passed it. It returns `None`
/// only once its frontier is empty, that is once every node reachable from
/// `start` has been taken and has failed the test. Nodes are told apart by
/// `Eq`, which compares their contents, and no node appears twice in a
/// path. The search is deterministic: a binary heap and an index map with an
/// unseeded hasher, fed by closures whose results depend on the contents of
/// the nodes, actions and goal alone. Every node handed to the three
/// closures is `start` or a successor listed by `successors`, so each is well
/// formed. Costs are summed in `u128` from terms below 2^64 each, so they do
/// not overflow within 2^64 expansions.
#[verifier::external_body]
fn astar_search(start: &Node, actions: &[Action], goal: &Goal) -> (r: Option<(Vec<Node>, u128)>)
    requires
        start.wf(),
    ensures
        match r {
            Some((path, _)) => {
                let p = views(path@);
                &&& p.len() >= 1
                &&& p[0] == start@
                &&& forall|i: int|
                    0 <= i < p.len() - 1 ==> edge(#[trigger] p[i], p[i + 1], actions@) && !halts(
                        p[i],
                        actions@,
                        goal@,
                    )
                &&& halts(p.last(), actions@, goal@)
            },
            None => forall|p: Seq<NodeView>|
                is_walk(p, actions@) && p[0] == start@ ==> !halts(p.last(), actions@, goal@),
        },
        r matches Some((path, _)) ==> views(path@).no_duplicates(),
        search_outcome(start@, actions@, goal@) == match r {
            Some((path, _)) => Some(views(path@)),
            None => None::<Seq<NodeView>>,
        },
{
    pathfinding::directed::astar::astar(
        start,
        |n| successors(n, actions, goal),
        |n| heuristic(n, goal),
        |n| stops_at(n, actions, goal),
    )
}

/// How the planner searches.
#[derive(Copy, Clone, Debug)]
pub enum PlanningStrategy {
    /// Search forward from the initial state towards a state meeting the goal.
    StartToGoal,
}

impl Default for PlanningStrategy {
    fn default() -> (r: Self)
        ensures
            r == PlanningStrategy::StartToGoal,
    {
        PlanningStrategy::StartToGoal
    }
}

/// What `make_plan` may return for `start`, `actions` and the goal `reqs`.
pub open spec fn plan_outcome(
    start: Seq<(String, Value)>,
    actions: Seq<Action>,
    reqs: Seq<(String, Assert)>,
    r: Result<Option<(Seq<NodeView>, usize)>, PlanError>,
) -> bool {
    match r {
        Ok(Some((p, cost))) => {
            &&& is_walk(p, actions)
            &&& p[0] == NodeView::Start(start)
            &&& goal_outcome(reqs, state_of(p.last())) == Ok::<bool, PlanError>(true)
            &&& cost == walk_cost(p)
            &&& forall|i: int| 0 <= i < p.len() - 1 ==> !halts(#[trigger] p[i], actions, reqs)
            &&& p.no_duplicates()
        },
        Ok(None) => forall|p: Seq<NodeView>|
            is_walk(p, actions) && p[0] == NodeView::Start(start) ==> !halts(p.last(), actions, reqs),
        Err(e) => exists|p: Seq<NodeView>|
            is_walk(p, actions) && p[0] == NodeView::Start(start) && p.no_duplicates() && (forall|
                i: int,
            |
                0 <= i < p.len() - 1 ==> !halts(#[trigger] p[i], actions, reqs)) && (stop_fault(
                p.last(),
                actions,
                reqs,
            ) == Some(e) || (e == PlanError::CostOverflow && goal_outcome(reqs, state_of(p.last()))
                == Ok::<bool, PlanError>(true) && walk_cost(p) > usize::MAX)),
    }
}

/// The contents of a planner result.
pub open spec fn result_view(r: Result<Option<(Vec<Node>, usize)>, PlanError>) -> Result<
    Option<(Seq<NodeView>, usize)>,
    PlanError,
> {
    match r {
        Ok(Some((path, cost))) => Ok(Some((views(path@), cost))),
        Ok(None) => Ok(None),
        Err(e) => Err(e),
    }
}

/// What a search result `found` makes of a plan: the path kept, its cost
/// and which of plan, absence or fault it stands for.
pub open spec fn completion(
    found: Option<Seq<NodeView>>,
    actions: Seq<Action>,
    reqs: Seq<(String, Assert)>,
) -> Result<Option<(Seq<NodeView>, usize)>, PlanError> {
    match found {
        None => Ok(None),
        Some(p) => if p.len() == 0 {
            Ok(None)
        } else {
            match goal_outcome(reqs, state_of(p.last())) {
                Err(e) => Err(e),
                Ok(true) => if walk_cost(p) <= usize::MAX {
                    Ok(Some((p, walk_cost(p) as usize)))
                } else {
                    Err(PlanError::CostOverflow)
                },
                Ok(false) => match expansion_fault(state_of(p.last()), actions, reqs) {
                    Some(e) => Err(e),
                    None => Ok(None),
                },
            }
        },
    }
}

/// Turns the path a search ended with into the planner's answer: the fault
/// met at its last node, or the plan with its total cost when the last node
/// meets the goal; no path gives no plan.
pub fn complete_plan(found: Option<Vec<Node>>, actions: &[Action], goal: &Goal) -> (r: Result<
    Option<(Vec<Node>, usize)>,
    PlanError,
>)
    requires
        found matches Some(path) ==> forall|i: int| 0 <= i < path@.len() ==> (#[trigger] path@[i]).wf(),
    ensures
        result_view(r) == completion(
            match found {
                Some(path) => Some(views(path@)),
                None => None,
            },
            actions@,
            goal@,
        ),
{
    let ghost fv = found;
    let path = match found {
        None => {
            return Ok(None);
        },
        Some(path) => path,
    };
    let ghost p = views(path@);
    let n = path.len();
    if n == 0 {
        return Ok(None);
    }
    let last = &path[n - 1];
    assert(p[n - 1] == p.last());
    match goal.check(last.state()) {
        Err(e) => {
            return Err(e);
        },
        Ok(false) => {
            return match expansion_fault_at(last, actions, goal) {
                Some(e) => Err(e),
                None => Ok(None),
            };
        },
        Ok(true) => {},
    }
    let mut total: usize = 0;
    let mut i: usize = 0;
    while i < n
        invariant
            0 <= i <= n,
            0 < n == path@.len(),
            p == views(path@),
            fv == Some(path),
            fv == found,
            total as nat == walk_cost(p.subrange(0, i as int)),
            goal_outcome(goal@, state_of(p.last())) == Ok::<bool, PlanError>(true),
        decreases n - i,
    {
        let ghost pre = p.subrange(0, i as int + 1);
        proof {
            assert(pre.drop_last() =~= p.subrange(0, i as int));
            assert(pre.last() == p[i as int]);
        }
        let step: usize = match &path[i] {
            Node::State(_) => 0,
            Node::Effect((_, effect, _)) => effect.cost,
        };
        match total.checked_add(step) {
            Some(t) => {
                total = t;
            },
            None => {
                proof {
                    assert(step as nat == cost_of(p[i as int]));
                    assert(walk_cost(pre) == total + step);
                    lemma_walk_cost_prefix(p, i as int + 1);
                }
                return Err(PlanError::CostOverflow);
            },
        }
        i = i + 1;
    }
    proof {
        assert(p.subrange(0, i as int) =~= p);
    }
    Ok(Some((path, total)))
}

/// Searches for a cheapest-looking sequence of actions leading from `start` to
/// a state that meets `goal`, with the given strategy.
///
/// `Ok(Some((path, cost)))`: `path` starts at `start`, each later node is a
/// successor of the one before, no node repeats, no node but the last meets
/// the goal or faults, the last meets the goal, and `cost` is the sum of the
/// transitions' costs. `Ok(None)`: no node reachable from `start` meets the
/// goal or faults. `Err(e)`: `e` is the fault met at the end of such a path,
/// or `CostOverflow` when the path found costs more than `usize::MAX`. The
/// answer is the one `complete_plan` gives on the path the search returns.
///
/// Faults: a precondition on an absent variable, an ordering test (in a
/// precondition or the goal) across tags, arithmetic on a flag or across tags
/// or out of the `i64` range, and a successor whose variable has another tag
/// than its goal requirement's bound, for which no estimate is defined. An
/// equality test across tags is no fault: it fails, or passes for
/// `NotEquals`. The cost is not promised to be the least possible: the
/// estimate that guides the search can exceed the true remaining cost.
pub fn make_plan_with_strategy(
    strategy: PlanningStrategy,
    start: &WorldState,
    actions: &[Action],
    goal: &Goal,
) -> (r: Result<Option<(Vec<Node>, usize)>, PlanError>)
    requires
        start.wf(),
    ensures
        plan_outcome(start@, actions@, goal@, result_view(r)),
        result_view(r) == completion(
            search_outcome(NodeView::Start(start@), actions@, goal@),
            actions@,
            goal@,
        ),
{
    match strategy {
        PlanningStrategy::StartToGoal => {
            let start_node = Node::State(start.clone());
            let found = match astar_search(&start_node, actions, goal) {
                None => None,
                Some((path, _)) => Some(path),
            };
            let ghost fv = found;
            proof {
                if let Some(path) = fv {
                    lemma_walk_unique(views(path@), actions@);
                    assert forall|i: int| 0 <= i < path@.len() implies (#[trigger] path@[i]).wf() by {
                        assert(views(path@)[i] == path@[i]@);
                    }
                    assert(is_walk(views(path@), actions@));
                }
            }
            let r = complete_plan(found, actions, goal);
            proof {
                if let Some(path) = fv {
                    let p = views(path@);
                    assert(p[0] == NodeView::Start(start@));
                    if r is Err {
                        assert(is_walk(p, actions@));
                    }
                }
            }
            r
        },
    }
}

/// Searches for a plan with the default strategy; see
/// `make_plan_with_strategy`.
pub fn make_plan(start: &WorldState, actions: &[Action], goal: &Goal) -> (r: Result<
    Option<(Vec<Node>, usize)>,
    PlanError,
>)
    requires
        start.wf(),
    ensures
        plan_outcome(start@, actions@, goal@, result_view(r)),
        result_view(r) == completion(
            search_outcome(NodeView::Start(start@), actions@, goal@),
            actions@,
            goal@,
        ),
{
    make_plan_with_strategy(PlanningStrategy::StartToGoal, start, actions, goal)
}

/// The transitions of a plan, in order, as (action name, effect, resulting
/// state); the initial-state node is left out.
pub fn get_effects_from_plan(plan: Vec<Node>) -> (r: Vec<(String, Effect, WorldState)>)
    ensures
        r@.len() == steps_of(views(plan@)).len(),
        forall|i: int|
            0 <= i < r@.len() ==> NodeView::Step(
                (#[trigger] r@[i]).0,
                r@[i].1.mutations@,
                r@[i].1.cost,
                r@[i].2@,
            ) == steps_of(views(plan@))[i],
{
    let ghost p = views(plan@);
    let mut out: Vec<(String, Effect, WorldState)> = Vec::new();
    let mut i: usize = 0;
    while i < plan.len()
        invariant
            0 <= i <= plan@.len(),
            p == views(plan@),
            out@.len() == steps_of(p.subrange(0, i as int)).len(),
            forall|j: int|
                0 <= j < out@.len() ==> NodeView::Step(
                    (#[trigger] out@[j]).0,
                    out@[j].1.mutations@,
                    out@[j].1.cost,
                    out@[j].2@,
                ) == steps_of(p.subrange(0, i as int))[j],
        decreases plan@.len() - i,
    {
        let ghost pre = p.subrange(0, i as int + 1);
        proof {
            assert(pre.drop_last() =~= p.subrange(0, i as int));
            assert(pre.last() == p[i as int]);
        }
        match &plan[i] {
            Node::State(_) => {},
            Node::Effect((key, effect, state)) => {
                out.push((key.clone(), effect.clone(), state.clone()));
            },
        }
        i = i + 1;
    }
    proof {
        assert(p.subrange(0, i as int) =~= p);
    }
    out
}

/// The last state of every plan the planner returns meets the goal, in the
/// sense of `Goal::is_satisfied_by`.
pub proof fn lemma_plan_meets_goal(
    start: Seq<(String, Value)>,
    actions: Seq<Action>,
    reqs: Seq<(String, Assert)>,
    p: Seq<NodeView>,
    cost: usize,
)
    requires
        plan_outcome(start, actions, reqs, Ok(Some((p, cost)))),
    ensures
        goal_met(reqs, state_of(p.last())),
{
    lemma_goal_outcome(reqs, state_of(p.last()));
}

/// When the planner finds no plan, no state reachable from the start meets
/// the goal.
pub proof fn lemma_no_plan_no_goal(
    start: Seq<(String, Value)>,
    actions: Seq<Action>,
    reqs: Seq<(String, Assert)>,
    p: Seq<NodeView>,
)
    requires
        plan_outcome(start, actions, reqs, Ok(None)),
        is_walk(p, actions),
        p[0] == NodeView::Start(start),
    ensures
        !goal_met(reqs, state_of(p.last())),
{
    lemma_goal_outcome(reqs, state_of(p.last()));
}

/// The cost of a walk is that of its transitions alone.
pub proof fn lemma_walk_cost_of_steps(p: Seq<NodeView>)
    ensures
        walk_cost(p) == walk_cost(steps_of(p)),
    decreases p.len(),
{
    if p.len() > 0 {
        lemma_walk_cost_of_steps(p.drop_last());
        if p.last() is Step {
            assert(steps_of(p).drop_last() =~= steps_of(p.drop_last()));
        }
    }
}

/// The total cost of every plan the planner returns is the sum of the costs
/// of its transitions' effects, taken in order.
pub proof fn lemma_plan_cost_is_sum_of_steps(
    start: Seq<(String, Value)>,
    actions: Seq<Action>,
    reqs: Seq<(String, Assert)>,
    p: Seq<NodeView>,
    cost: usize,
)
    requires
        plan_outcome(start, actions, reqs, Ok(Some((p, cost)))),
    ensures
        cost == walk_cost(steps_of(p)),
{
    lemma_walk_cost_of_steps(p);
}

/// On a walk from the start, every node after the first is a transition.
pub proof fn lemma_walk_steps(start: Seq<(String, Value)>, actions: Seq<Action>, p: Seq<NodeView>)
    requires
        is_walk(p, actions),
        p[0] == NodeView::Start(start),
    ensures
        steps_of(p) == p.subrange(1, p.len() as int),
    decreases p.len(),
{
    if p.len() == 1 {
        assert(steps_of(p) == steps_of(p.drop_last()));
        assert(p.subrange(1, 1) =~= Seq::<NodeView>::empty());
    } else {
        let q = p.drop_last();
        assert forall|i: int| 0 <= i < q.len() - 1 implies edge(#[trigger] q[i], q[i + 1], actions) by {
            assert(edge(p[i], p[i + 1], actions));
        }
        lemma_walk_steps(start, actions, q);
        let n = p.len() - 2;
        assert(edge(p[n], p[n + 1], actions));
        lemma_expansion_members(state_of(p[n]), actions);
        let vs = expansion(state_of(p[n]), actions)->Ok_0;
        let j = choose|j: int| 0 <= j < vs.len() && vs[j] == p[n + 1];
        assert(vs[j] == p[n + 1]);
        assert(p.subrange(1, p.len() as int) =~= q.subrange(1, q.len() as int).push(p.last()));
    }
}

/// Replaying, in order, the effects of the first `i` transitions of a walk
/// from the start yields exactly the state recorded at its `i`-th transition.
pub proof fn lemma_replay_reaches_each_state(
    start: Seq<(String, Value)>,
    actions: Seq<Action>,
    p: Seq<NodeView>,
)
    requires
        is_walk(p, actions),
        p[0] == NodeView::Start(start),
    ensures
        forall|i: int|
            0 < i < p.len() ==> replay(start, #[trigger] steps_of(p).take(i)) == Ok::<
                Seq<(String, Value)>,
                PlanError,
            >(state_of(p[i])),
{
    lemma_walk_steps(start, actions, p);
    assert forall|i: int| 0 < i < p.len() implies replay(start, #[trigger] steps_of(p).take(i))
        == Ok::<Seq<(String, Value)>, PlanError>(state_of(p[i])) by {
        let q = p.subrange(0, i + 1);
        assert forall|j: int| 0 <= j < q.len() - 1 implies edge(#[trigger] q[j], q[j + 1], actions) by {
            assert(edge(p[j], p[j + 1], actions));
        }
        assert(q[0] == p[0]);
        lemma_replay_reaches_final_state(start, actions, q);
        lemma_walk_steps(start, actions, q);
        assert(q.subrange(1, q.len() as int) =~= steps_of(p).take(i));
        assert(q.last() == p[i]);
    }
}

} // verus!
