use vstd::prelude::*;

use crate::effect::Effect;
use crate::keyed::ordered_keys;
use crate::mutation::Mutation;
use crate::value::Value;
use crate::world_state::WorldState;

verus! {

/// A vertex of the search graph: the initial state, or the state reached by
/// performing a named action's effect.
#[derive(Debug, PartialEq, Eq, Hash)]
pub enum Node {
    /// The state the search starts from.
    State(WorldState),
    /// A transition: the action's name, the effect applied and the state it
    /// produced.
    Effect((String, Effect, WorldState)),
}

/// The mathematical content of a node.
pub enum NodeView {
    Start(Seq<(String, Value)>),
    Step(String, Seq<Mutation>, usize, Seq<(String, Value)>),
}

/// The state a node stands at.
pub open spec fn state_of(n: NodeView) -> Seq<(String, Value)> {
    match n {
        NodeView::Start(s) => s,
        NodeView::Step(_, _, _, s) => s,
    }
}

/// The price of reaching a node from its predecessor.
pub open spec fn cost_of(n: NodeView) -> nat {
    match n {
        NodeView::Start(_) => 0,
        NodeView::Step(_, _, c, _) => c as nat,
    }
}

/// The mutations performed to reach a node.
pub open spec fn mutations_of(n: NodeView) -> Seq<Mutation> {
    match n {
        NodeView::Start(_) => Seq::empty(),
        NodeView::Step(_, m, _, _) => m,
    }
}

/// The contents of a sequence of nodes.
pub open spec fn views(p: Seq<Node>) -> Seq<NodeView> {
    p.map_values(|n: Node| n@)
}

impl View for Node {
    type V = NodeView;

    open spec fn view(&self) -> NodeView {
        match self {
            Node::State(s) => NodeView::Start(s@),
            Node::Effect((k, e, s)) => NodeView::Step(*k, e.mutations@, e.cost, s@),
        }
    }
}

impl Node {
    /// The node's state has unique names in increasing order.
    pub open spec fn wf(&self) -> bool {
        ordered_keys(state_of(self@))
    }

    /// The state this node stands at.
    pub fn state(&self) -> (r: &WorldState)
        ensures
            r@ == state_of(self@),
    {
        match self {
            Node::State(state) => state,
            Node::Effect((_, _, state)) => state,
        }
    }
}

impl Clone for Node {
    fn clone(&self) -> (r: Self)
        ensures
            r@ == self@,
    {
        match self {
            Node::State(s) => Node::State(s.clone()),
            Node::Effect((k, e, s)) => Node::Effect((k.clone(), e.clone(), s.clone())),
        }
    }
}

} // verus!
