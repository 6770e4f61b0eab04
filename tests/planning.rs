use rust_goap::action::Action;
use rust_goap::comparison::Assert;
use rust_goap::effect::Effect;
use rust_goap::error::PlanError;
use rust_goap::goal::Goal;
use rust_goap::mutation::Mutation;
use rust_goap::node::Node;
use rust_goap::planner::{get_effects_from_plan, make_plan, make_plan_with_strategy, PlanningStrategy};
use rust_goap::value::Value;
use rust_goap::world_state::WorldState;

fn names(path: &[Node]) -> Vec<String> {
    let mut out = Vec::new();
    for node in path {
        if let Node::Effect((name, _, _)) = node {
            out.push(name.clone());
        }
    }
    out
}

fn hunger_actions() -> Vec<Action> {
    let buy_food = Action::new("buy_food").with_effect(Effect {
        mutations: vec![Mutation::set("has_food", Value::Bool(true))],
        cost: 2,
    });
    let eat = Action::new("eat")
        .with_precondition(("has_food", Assert::eq(Value::Bool(true))))
        .with_effect(Effect {
            mutations: vec![
                Mutation::set("is_hungry", Value::Bool(false)),
                Mutation::set("has_food", Value::Bool(false)),
            ],
            cost: 1,
        });
    vec![buy_food, eat]
}

#[test]
fn buy_then_eat_costs_three() {
    let start = WorldState::new()
        .set("is_hungry", Value::Bool(true))
        .set("has_food", Value::Bool(false));
    let goal = Goal::new().with("is_hungry", Assert::eq(Value::Bool(false)));
    let (path, cost) = make_plan(&start, &hunger_actions(), &goal).unwrap().unwrap();
    assert_eq!(names(&path), vec!["buy_food".to_string(), "eat".to_string()]);
    assert_eq!(cost, 3);
    assert!(matches!(&path[0], Node::State(s) if *s == start));
    let last = path.last().unwrap().state();
    assert_eq!(last.get("is_hungry"), Some(&Value::Bool(false)));
    assert!(goal.is_satisfied_by(last));
}

#[test]
fn single_eat_costs_one() {
    let start = WorldState::new().set("is_hungry", Value::Bool(true));
    let goal = Goal::new().with("is_hungry", Assert::eq(Value::Bool(false)));
    let eat = Action::new("eat").with_effect(Effect {
        mutations: vec![Mutation::set("is_hungry", Value::Bool(false))],
        cost: 1,
    });
    let (path, cost) = make_plan(&start, &[eat], &goal).unwrap().unwrap();
    assert_eq!(names(&path), vec!["eat".to_string()]);
    assert_eq!(cost, 1);
    assert_eq!(path.len(), 2);
}

#[test]
fn long_plan_robs_seven_times() {
    let start = WorldState::new()
        .set("energy", Value::I64(30))
        .set("hunger", Value::I64(70))
        .set("gold", Value::I64(0));
    let goal = Goal::new().with("gold", Assert::eq(Value::I64(7)));
    let sleep = Action::new("sleep").with_effect(Effect {
        mutations: vec![Mutation::increment("energy", Value::I64(10))],
        cost: 1,
    });
    let eat = Action::new("eat")
        .with_effect(Effect { mutations: vec![Mutation::decrement("hunger", Value::I64(10))], cost: 1 })
        .with_precondition(("energy", Assert::gt_eq(Value::I64(26))));
    let rob = Action::new("rob")
        .with_effect(Effect {
            mutations: vec![
                Mutation::increment("gold", Value::I64(1)),
                Mutation::decrement("energy", Value::I64(5)),
                Mutation::increment("hunger", Value::I64(5)),
            ],
            cost: 1,
        })
        .with_precondition(("hunger", Assert::lt_eq(Value::I64(50))))
        .with_precondition(("energy", Assert::gt_eq(Value::I64(50))));
    let actions = vec![sleep, eat, rob];
    let (path, cost) = make_plan(&start, &actions, &goal).unwrap().unwrap();
    let steps = names(&path);
    assert_eq!(cost, steps.len());
    assert_eq!(steps.iter().filter(|s| s.as_str() == "rob").count(), 7);
    let last = path.last().unwrap().state();
    assert_eq!(last.get("gold"), Some(&Value::I64(7)));
    // Replaying each step from the start reproduces every intermediate state.
    let mut replayed = start.clone();
    for (name, effect, state) in get_effects_from_plan(path.clone()) {
        let action = actions.iter().find(|a| a.key == name).unwrap();
        assert_eq!(action.check_preconditions(&replayed), Ok(true));
        effect.apply_to(&mut replayed).unwrap();
        assert_eq!(replayed, state);
    }
    assert_eq!(&replayed, last);
}

#[test]
fn no_actions_no_plan() {
    let start = WorldState::new();
    let goal = Goal::new().with("anything", Assert::eq(Value::Bool(true)));
    assert_eq!(make_plan(&start, &[], &goal), Ok(None));
}

#[test]
fn unreachable_goal_gives_none() {
    let start = WorldState::new().set("door_open", Value::Bool(false));
    let goal = Goal::new().with("door_open", Assert::eq(Value::Bool(true)));
    let knock = Action::new("knock").with_effect(Effect {
        mutations: vec![Mutation::set("knocked", Value::Bool(true))],
        cost: 1,
    });
    assert_eq!(make_plan(&start, &[knock], &goal), Ok(None));
}

#[test]
fn goal_already_met_gives_start_only() {
    let start = WorldState::new().set("is_hungry", Value::Bool(false));
    let goal = Goal::new().with("is_hungry", Assert::eq(Value::Bool(false)));
    let (path, cost) = make_plan(&start, &hunger_actions(), &goal).unwrap().unwrap();
    assert_eq!(path.len(), 1);
    assert_eq!(cost, 0);
    assert!(get_effects_from_plan(path).is_empty());
}

#[test]
fn cheaper_route_is_chosen() {
    let start = WorldState::new().set("at_home", Value::Bool(true)).set("at_work", Value::Bool(false));
    let goal = Goal::new().with("at_work", Assert::eq(Value::Bool(true)));
    let walk = Action::new("walk").with_effect(Effect {
        mutations: vec![Mutation::set("at_work", Value::Bool(true))],
        cost: 5,
    });
    let bus = Action::new("bus").with_effect(Effect {
        mutations: vec![Mutation::set("at_work", Value::Bool(true))],
        cost: 2,
    });
    let (path, cost) = make_plan(&start, &[walk, bus], &goal).unwrap().unwrap();
    assert_eq!(names(&path), vec!["bus".to_string()]);
    assert_eq!(cost, 2);
}

#[test]
fn strategy_call_matches_default() {
    let start = WorldState::new().set("is_hungry", Value::Bool(true)).set("has_food", Value::Bool(false));
    let goal = Goal::new().with("is_hungry", Assert::eq(Value::Bool(false)));
    let a = make_plan(&start, &hunger_actions(), &goal);
    let b = make_plan_with_strategy(PlanningStrategy::default(), &start, &hunger_actions(), &goal);
    assert_eq!(a, b);
}

#[test]
fn missing_precondition_variable_is_a_fault() {
    let start = WorldState::new().set("is_hungry", Value::Bool(true));
    let goal = Goal::new().with("is_hungry", Assert::eq(Value::Bool(false)));
    let eat = Action::new("eat")
        .with_precondition(("has_food", Assert::eq(Value::Bool(true))))
        .with_effect(Effect { mutations: vec![Mutation::set("is_hungry", Value::Bool(false))], cost: 1 });
    assert_eq!(
        make_plan(&start, &[eat], &goal),
        Err(PlanError::MissingVariable("has_food".to_string()))
    );
}

#[test]
fn goal_tag_mismatch_is_a_fault() {
    let start = WorldState::new().set("gold", Value::Bool(true));
    let goal = Goal::new().with("gold", Assert::gt(Value::I64(3)));
    assert_eq!(make_plan(&start, &[], &goal), Err(PlanError::TypeMismatch("gold".to_string())));
}

#[test]
fn increment_overflow_is_a_fault() {
    let start = WorldState::new().set("gold", Value::I64(i64::MAX));
    let goal = Goal::new().with("gold", Assert::eq(Value::I64(0)));
    let earn = Action::new("earn").with_effect(Effect {
        mutations: vec![Mutation::increment("gold", Value::I64(1))],
        cost: 1,
    });
    assert_eq!(make_plan(&start, &[earn], &goal), Err(PlanError::Overflow("gold".to_string())));
}

#[test]
fn plan_cost_overflow_is_reported() {
    let start = WorldState::new().set("a", Value::Bool(false)).set("b", Value::Bool(false));
    let goal = Goal::new().with("a", Assert::eq(Value::Bool(true))).with("b", Assert::eq(Value::Bool(true)));
    let first = Action::new("first").with_effect(Effect {
        mutations: vec![Mutation::set("a", Value::Bool(true))],
        cost: usize::MAX,
    });
    let second = Action::new("second")
        .with_precondition(("a", Assert::eq(Value::Bool(true))))
        .with_effect(Effect { mutations: vec![Mutation::set("b", Value::Bool(true))], cost: 1 });
    assert_eq!(make_plan(&start, &[first, second], &goal), Err(PlanError::CostOverflow));
}

#[test]
fn missing_variable_behind_failed_precondition_is_a_fault() {
    let start = WorldState::new().set("a", Value::Bool(false));
    let goal = Goal::new().with("b", Assert::eq(Value::Bool(true)));
    let act = Action::new("act")
        .with_precondition(("a", Assert::eq(Value::Bool(true))))
        .with_precondition(("missing", Assert::eq(Value::Bool(true))))
        .with_effect(Effect { mutations: vec![Mutation::set("b", Value::Bool(true))], cost: 1 });
    assert_eq!(
        make_plan(&start, &[act], &goal),
        Err(PlanError::MissingVariable("missing".to_string()))
    );
}

#[test]
fn repeated_calls_give_equal_results() {
    let start = WorldState::new().set("is_hungry", Value::Bool(true)).set("has_food", Value::Bool(false));
    let goal = Goal::new().with("is_hungry", Assert::eq(Value::Bool(false)));
    let first = make_plan(&start, &hunger_actions(), &goal);
    let second = make_plan(&start, &hunger_actions(), &goal);
    assert_eq!(first, second);
}

#[test]
fn goal_across_tags_is_reached_by_setting_the_variable() {
    let start = WorldState::new().set("x", Value::Bool(true));
    let goal = Goal::new().with("x", Assert::eq(Value::I64(5)));
    let set_x = Action::new("set_x").with_effect(Effect {
        mutations: vec![Mutation::set("x", Value::I64(5))],
        cost: 1,
    });
    let (path, cost) = make_plan(&start, &[set_x], &goal).unwrap().unwrap();
    assert_eq!(names(&path), vec!["set_x".to_string()]);
    assert_eq!(cost, 1);
}

#[test]
fn start_meeting_goal_through_not_equals_across_tags() {
    let start = WorldState::new().set("x", Value::Bool(true));
    let goal = Goal::new().with("x", Assert::not_eq(Value::I64(5)));
    assert!(goal.is_satisfied_by(&start));
    let set_x = Action::new("set_x").with_effect(Effect {
        mutations: vec![Mutation::set("x", Value::I64(5))],
        cost: 1,
    });
    assert_eq!(
        make_plan(&start, &[set_x], &goal),
        Ok(Some((vec![Node::State(start.clone())], 0)))
    );
}

#[test]
fn successor_with_undefined_estimate_is_a_fault() {
    let start = WorldState::new().set("x", Value::I64(1));
    let goal = Goal::new().with("x", Assert::eq(Value::I64(5)));
    let flip = Action::new("flip").with_effect(Effect {
        mutations: vec![Mutation::set("x", Value::Bool(true))],
        cost: 1,
    });
    assert_eq!(make_plan(&start, &[flip], &goal), Err(PlanError::TypeMismatch("x".to_string())));
}
