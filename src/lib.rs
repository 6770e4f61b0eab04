//! Goal-oriented action planning: typed world states, actions with
//! preconditions and effects, goals, and a heuristic search for a cheap
//! sequence of actions that turns a start state into one meeting a goal.

pub mod action;
pub mod comparison;
pub mod effect;
pub mod error;
pub mod goal;
pub mod keyed;
pub mod mutation;
pub mod node;
pub mod planner;
pub mod prelude;
pub mod value;
pub mod world_state;
