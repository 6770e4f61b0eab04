pub use crate::action::Action;
pub use crate::comparison::{compare_values, Assert};
pub use crate::effect::Effect;
pub use crate::error::PlanError;
pub use crate::goal::Goal;
pub use crate::mutation::{apply_mutator, Mutation};
pub use crate::node::Node;
pub use crate::planner::{
    complete_plan, get_effects_from_plan, make_plan, make_plan_with_strategy, PlanningStrategy,
};
pub use crate::value::Value;
pub use crate::world_state::WorldState;
