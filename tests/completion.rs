use rust_goap::action::Action;
use rust_goap::comparison::Assert;
use rust_goap::effect::Effect;
use rust_goap::error::PlanError;
use rust_goap::goal::Goal;
use rust_goap::mutation::Mutation;
use rust_goap::node::Node;
use rust_goap::planner::complete_plan;
use rust_goap::value::Value;
use rust_goap::world_state::WorldState;

fn step(name: &str, cost: usize, state: WorldState) -> Node {
    Node::Effect((name.to_string(), Effect::new().with_cost(cost), state))
}

fn not_hungry() -> Goal {
    Goal::new().with("is_hungry", Assert::eq(Value::Bool(false)))
}

#[test]
fn no_path_is_no_plan() {
    assert_eq!(complete_plan(None, &[], &not_hungry()), Ok(None));
    assert_eq!(complete_plan(Some(vec![]), &[], &not_hungry()), Ok(None));
}

#[test]
fn plan_cost_is_the_sum_of_its_steps() {
    let s0 = WorldState::new().set("is_hungry", Value::Bool(true));
    let s1 = s0.clone().set("has_food", Value::Bool(true));
    let s2 = s1.clone().set("is_hungry", Value::Bool(false));
    let path = vec![Node::State(s0), step("buy_food", 2, s1), step("eat", 1, s2)];
    let (kept, cost) = complete_plan(Some(path.clone()), &[], &not_hungry()).unwrap().unwrap();
    assert_eq!(kept, path);
    assert_eq!(cost, 3);
}

#[test]
fn start_meeting_goal_costs_nothing() {
    let s0 = WorldState::new().set("is_hungry", Value::Bool(false));
    let path = vec![Node::State(s0)];
    assert_eq!(complete_plan(Some(path.clone()), &[], &not_hungry()), Ok(Some((path, 0))));
}

#[test]
fn last_node_ordering_across_tags_is_the_fault() {
    let s0 = WorldState::new().set("is_hungry", Value::I64(3));
    let goal = Goal::new().with("is_hungry", Assert::lt(Value::Bool(true)));
    assert_eq!(
        complete_plan(Some(vec![Node::State(s0)]), &[], &goal),
        Err(PlanError::TypeMismatch("is_hungry".to_string()))
    );
}

#[test]
fn last_node_equality_across_tags_is_no_fault() {
    let s0 = WorldState::new().set("is_hungry", Value::I64(3));
    assert_eq!(complete_plan(Some(vec![Node::State(s0.clone())]), &[], &not_hungry()), Ok(None));
    let goal = Goal::new().with("is_hungry", Assert::not_eq(Value::Bool(true)));
    let path = vec![Node::State(s0)];
    assert_eq!(complete_plan(Some(path.clone()), &[], &goal), Ok(Some((path, 0))));
}

#[test]
fn incompatible_successor_is_the_fault() {
    let s0 = WorldState::new().set("is_hungry", Value::Bool(true));
    let spoil = Action::new("spoil").with_effect(Effect {
        mutations: vec![Mutation::set("is_hungry", Value::I64(1))],
        cost: 1,
    });
    assert_eq!(
        complete_plan(Some(vec![Node::State(s0)]), &[spoil], &not_hungry()),
        Err(PlanError::TypeMismatch("is_hungry".to_string()))
    );
}

#[test]
fn last_node_expansion_fault_is_the_fault() {
    let s0 = WorldState::new().set("is_hungry", Value::Bool(true));
    let eat = Action::new("eat").with_precondition(("has_food", Assert::eq(Value::Bool(true))));
    assert_eq!(
        complete_plan(Some(vec![Node::State(s0)]), &[eat], &not_hungry()),
        Err(PlanError::MissingVariable("has_food".to_string()))
    );
}

#[test]
fn last_node_neither_goal_nor_fault_is_no_plan() {
    let s0 = WorldState::new().set("is_hungry", Value::Bool(true));
    let nap = Action::new("nap").with_effect(Effect {
        mutations: vec![Mutation::set("rested", Value::Bool(true))],
        cost: 1,
    });
    assert_eq!(complete_plan(Some(vec![Node::State(s0)]), &[nap], &not_hungry()), Ok(None));
}

#[test]
fn path_cost_beyond_usize_is_reported() {
    let s0 = WorldState::new().set("is_hungry", Value::Bool(true));
    let s1 = s0.clone().set("is_hungry", Value::Bool(false));
    let path = vec![Node::State(s0), step("feast", usize::MAX, s1.clone()), step("snack", 1, s1)];
    assert_eq!(complete_plan(Some(path), &[], &not_hungry()), Err(PlanError::CostOverflow));
}
