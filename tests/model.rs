use rust_goap::action::Action;
use rust_goap::comparison::{compare_values, Assert};
use rust_goap::effect::Effect;
use rust_goap::error::PlanError;
use rust_goap::goal::Goal;
use rust_goap::mutation::{apply_mutator, Mutation};
use rust_goap::value::Value;
use rust_goap::world_state::WorldState;

#[test]
fn value_from_primitives() {
    assert_eq!(Value::from(42_i64), Value::I64(42));
    assert_eq!(Value::from(true), Value::Bool(true));
    assert_ne!(Value::I64(1), Value::Bool(true));
}

#[test]
fn distance_of_integers_and_flags() {
    assert_eq!(Value::I64(10).distance(&Value::I64(15)), 5);
    assert_eq!(Value::I64(15).distance(&Value::I64(10)), 5);
    assert_eq!(Value::Bool(true).distance(&Value::Bool(true)), 0);
    assert_eq!(Value::Bool(true).distance(&Value::Bool(false)), 1);
    assert_eq!(Value::I64(i64::MIN).distance(&Value::I64(i64::MAX)), u64::MAX);
}

#[test]
fn distance_is_symmetric_on_examples() {
    let pairs = [(Value::I64(-7), Value::I64(12)), (Value::Bool(false), Value::Bool(true)), (Value::I64(3), Value::I64(3))];
    for (a, b) in pairs {
        assert_eq!(a.distance(&b), b.distance(&a));
    }
}

#[test]
fn value_arithmetic() {
    assert_eq!(Value::I64(10).add(Value::I64(5)), Some(Value::I64(15)));
    assert_eq!(Value::I64(10).sub(Value::I64(5)), Some(Value::I64(5)));
    assert_eq!(Value::I64(i64::MAX).add(Value::I64(1)), None);
    assert_eq!(Value::Bool(true).add(Value::Bool(true)), None);
    assert_eq!(Value::I64(1).sub(Value::Bool(true)), None);
}

#[test]
fn assertion_builders() {
    assert_eq!(Assert::eq(Value::I64(42)), Assert::Equals(Value::I64(42)));
    assert_eq!(Assert::not_eq(Value::I64(0)), Assert::NotEquals(Value::I64(0)));
    assert_eq!(Assert::gt(Value::I64(10)), Assert::GreaterThan(Value::I64(10)));
    assert_eq!(Assert::lt(Value::I64(100)), Assert::LessThan(Value::I64(100)));
    assert_eq!(Assert::gt_eq(Value::I64(50)), Assert::GreaterThanEquals(Value::I64(50)));
    assert_eq!(Assert::lt_eq(Value::I64(200)), Assert::LessThanEquals(Value::I64(200)));
    assert_eq!(Assert::gt(Value::I64(10)).value(), Value::I64(10));
}

#[test]
fn comparisons() {
    let v = Value::I64(42);
    assert!(compare_values(&Assert::eq(Value::I64(42)), &v));
    assert!(compare_values(&Assert::gt(Value::I64(40)), &v));
    assert!(!compare_values(&Assert::lt(Value::I64(30)), &v));
    assert!(compare_values(&Assert::gt_eq(Value::I64(42)), &v));
    assert!(compare_values(&Assert::lt_eq(Value::I64(42)), &v));
    assert!(!compare_values(&Assert::not_eq(Value::I64(42)), &v));
    assert!(!compare_values(&Assert::eq(Value::Bool(true)), &v));
    assert!(compare_values(&Assert::not_eq(Value::Bool(true)), &v));
    assert!(compare_values(&Assert::gt(Value::Bool(false)), &Value::Bool(true)));
    assert!(!compare_values(&Assert::lt(Value::Bool(false)), &Value::Bool(true)));
}

#[test]
fn world_state_set_and_get() {
    let s = WorldState::new().set("health", Value::I64(100)).set("armed", Value::Bool(true));
    assert_eq!(s.len(), 2);
    assert!(!s.is_empty());
    assert!(s.contains_key("health"));
    assert!(!s.contains_key("mana"));
    assert_eq!(s.get("health"), Some(&Value::I64(100)));
    assert_eq!(s.get("mana"), None);
    let s = s.set("health", Value::I64(10));
    assert_eq!(s.len(), 2);
    assert_eq!(s.get("health"), Some(&Value::I64(10)));
    let keys: Vec<&str> = s.iter().iter().map(|(k, _)| k.as_str()).collect();
    assert_eq!(keys, vec!["armed", "health"]);
    assert!(WorldState::new().is_empty());
    assert_eq!(WorldState::default(), WorldState::new());
}

#[test]
fn world_state_iterates_in_name_order() {
    let s = WorldState::new()
        .set("zeta", Value::I64(1))
        .set("alpha", Value::I64(2))
        .set("mid", Value::I64(3))
        .set("Alpha", Value::I64(4))
        .set("alpha", Value::I64(5));
    let keys: Vec<&str> = s.iter().iter().map(|(k, _)| k.as_str()).collect();
    assert_eq!(keys, vec!["Alpha", "alpha", "mid", "zeta"]);
    assert_eq!(s.get("alpha"), Some(&Value::I64(5)));
    // The same variables set in another order give an equal state.
    let t = WorldState::new()
        .set("mid", Value::I64(3))
        .set("Alpha", Value::I64(4))
        .set("zeta", Value::I64(1))
        .set("alpha", Value::I64(5));
    assert_eq!(s, t);
}

#[test]
fn world_state_from_pairs() {
    let s = WorldState::from_pairs(vec![
        ("a".to_string(), Value::I64(1)),
        ("b".to_string(), Value::I64(2)),
        ("a".to_string(), Value::I64(3)),
    ]);
    assert_eq!(s.len(), 2);
    assert_eq!(s.get("a"), Some(&Value::I64(3)));
    assert_eq!(s.get("b"), Some(&Value::I64(2)));
}

#[test]
fn mutations_apply() {
    let mut s = WorldState::new().set("health", Value::I64(50)).set("temp", Value::Bool(true));
    assert_eq!(apply_mutator(&mut s, &Mutation::increment("health", Value::I64(25))), Ok(()));
    assert_eq!(s.get("health"), Some(&Value::I64(75)));
    assert_eq!(apply_mutator(&mut s, &Mutation::decrement("health", Value::I64(5))), Ok(()));
    assert_eq!(s.get("health"), Some(&Value::I64(70)));
    assert_eq!(apply_mutator(&mut s, &Mutation::delete("temp")), Ok(()));
    assert!(!s.contains_key("temp"));
    assert_eq!(apply_mutator(&mut s, &Mutation::delete("temp")), Ok(()));
    assert_eq!(apply_mutator(&mut s, &Mutation::set("ammo", Value::I64(3))), Ok(()));
    assert_eq!(s.get("ammo"), Some(&Value::I64(3)));
}

#[test]
fn missing_variable_increment_is_a_no_op() {
    let before = WorldState::new().set("health", Value::I64(50));
    let mut s = before.clone();
    assert_eq!(apply_mutator(&mut s, &Mutation::increment("ammo", Value::I64(10))), Ok(()));
    assert_eq!(apply_mutator(&mut s, &Mutation::decrement("ammo", Value::I64(10))), Ok(()));
    assert_eq!(s, before);
    assert!(!s.contains_key("ammo"));
}

#[test]
fn mutation_faults_leave_state_unchanged() {
    let before = WorldState::new().set("flag", Value::Bool(true)).set("n", Value::I64(i64::MIN));
    let mut s = before.clone();
    assert_eq!(
        apply_mutator(&mut s, &Mutation::increment("flag", Value::I64(1))),
        Err(PlanError::TypeMismatch("flag".to_string()))
    );
    assert_eq!(
        apply_mutator(&mut s, &Mutation::decrement("n", Value::I64(1))),
        Err(PlanError::Overflow("n".to_string()))
    );
    assert_eq!(s, before);
}

#[test]
fn effect_builders_and_application() {
    let e = Effect::new()
        .with_mutation("health", Mutation::set("ignored", Value::I64(100)))
        .with_mutation("ammo", Mutation::increment("x", Value::I64(10)))
        .with_cost(4);
    assert_eq!(e.cost, 4);
    assert_eq!(e.mutation_count(), 2);
    assert!(e.has_mutations());
    assert!(!Effect::new().has_mutations());
    assert_eq!(Effect::new().cost, 1);
    assert_eq!(Effect::default(), Effect::new());
    assert_eq!(e.mutations[0], Mutation::Assign("health".to_string(), Value::I64(100)));
    assert_eq!(e.mutations[1], Mutation::Increment("ammo".to_string(), Value::I64(10)));
    let mut s = WorldState::new().set("ammo", Value::I64(1));
    assert_eq!(e.apply_to(&mut s), Ok(()));
    assert_eq!(s.get("health"), Some(&Value::I64(100)));
    assert_eq!(s.get("ammo"), Some(&Value::I64(11)));
}

#[test]
fn later_mutations_see_earlier_ones() {
    let e = Effect {
        mutations: vec![Mutation::set("x", Value::I64(1)), Mutation::increment("x", Value::I64(2))],
        cost: 1,
    };
    let mut s = WorldState::new();
    e.apply_to(&mut s).unwrap();
    assert_eq!(s.get("x"), Some(&Value::I64(3)));
}

#[test]
fn faulty_effect_leaves_state_unchanged() {
    let e = Effect {
        mutations: vec![Mutation::set("x", Value::I64(1)), Mutation::increment("flag", Value::I64(2))],
        cost: 1,
    };
    let before = WorldState::new().set("flag", Value::Bool(false));
    let mut s = before.clone();
    assert_eq!(e.apply_to(&mut s), Err(PlanError::TypeMismatch("flag".to_string())));
    assert_eq!(s, before);
}

#[test]
fn goals() {
    let g = Goal::new().with("health", Assert::gt(Value::I64(50))).with("armed", Assert::eq(Value::Bool(true)));
    assert_eq!(g.requirement_count(), 2);
    assert!(g.has_requirements());
    assert!(!Goal::new().has_requirements());
    assert_eq!(Goal::default(), Goal::new());
    let ok = WorldState::new().set("health", Value::I64(80)).set("armed", Value::Bool(true));
    let weak = WorldState::new().set("health", Value::I64(20)).set("armed", Value::Bool(true));
    let missing = WorldState::new().set("health", Value::I64(80));
    assert!(g.is_satisfied_by(&ok));
    assert!(!g.is_satisfied_by(&weak));
    assert!(!g.is_satisfied_by(&missing));
    assert!(Goal::new().is_satisfied_by(&WorldState::new()));
    let g2 = g.with("health", Assert::lt(Value::I64(50)));
    assert_eq!(g2.requirement_count(), 2);
    assert!(g2.is_satisfied_by(&weak));
}

#[test]
fn goal_from_requirements() {
    let g = Goal::from_reqs(&[
        ("a".to_string(), Assert::eq(Value::I64(1))),
        ("b".to_string(), Assert::eq(Value::I64(2))),
    ]);
    assert_eq!(g.requirement_count(), 2);
    assert!(g.is_satisfied_by(&WorldState::new().set("a", Value::I64(1)).set("b", Value::I64(2))));
}

#[test]
fn distance_to_goal_sums_terms() {
    let g = Goal::new()
        .with("gold", Assert::eq(Value::I64(7)))
        .with("awake", Assert::eq(Value::Bool(true)))
        .with("absent", Assert::eq(Value::I64(3)));
    let s = WorldState::new().set("gold", Value::I64(2)).set("awake", Value::Bool(false));
    assert_eq!(s.distance_to_goal(&g), 5 + 1 + 1);
    let far = WorldState::new().set("gold", Value::I64(i64::MIN)).set("awake", Value::Bool(false));
    assert_eq!(far.distance_to_goal(&g), (1u64 << 63) + 7 + 1 + 1);
    let rich = Goal::new().with("gold", Assert::eq(Value::I64(i64::MAX))).with("absent", Assert::eq(Value::I64(0)));
    let poor = WorldState::new().set("gold", Value::I64(i64::MIN));
    assert_eq!(poor.distance_to_goal(&rich), u64::MAX);
}

#[test]
fn preconditions() {
    let a = Action::new("rob")
        .with_precondition(("hunger", Assert::lt_eq(Value::I64(50))))
        .with_precondition(("energy", Assert::gt_eq(Value::I64(50))));
    assert_eq!(a.key, "rob");
    assert_eq!(a.preconditions.len(), 2);
    assert!(a.effect.is_none());
    let ok = WorldState::new().set("hunger", Value::I64(10)).set("energy", Value::I64(60));
    let tired = WorldState::new().set("hunger", Value::I64(10)).set("energy", Value::I64(40));
    let hungry = WorldState::new().set("hunger", Value::I64(90));
    let no_hunger = WorldState::new().set("energy", Value::I64(60));
    let wrong_tag = WorldState::new().set("hunger", Value::Bool(true)).set("energy", Value::I64(60));
    assert_eq!(a.check_preconditions(&ok), Ok(true));
    assert_eq!(a.check_preconditions(&tired), Ok(false));
    // A precondition on an absent variable is a fault even after a failed one.
    assert_eq!(a.check_preconditions(&hungry), Err(PlanError::MissingVariable("energy".to_string())));
    let hungry_rested = hungry.clone().set("energy", Value::I64(60));
    assert_eq!(a.check_preconditions(&hungry_rested), Ok(false));
    assert_eq!(a.check_preconditions(&no_hunger), Err(PlanError::MissingVariable("hunger".to_string())));
    assert_eq!(a.check_preconditions(&wrong_tag), Err(PlanError::TypeMismatch("hunger".to_string())));
    let with_effect = a.with_effect(Effect::new());
    assert_eq!(with_effect.effect, Some(Effect::new()));
}

#[test]
fn default_action_is_empty() {
    let a = Action::default();
    assert_eq!(a.key, "");
    assert!(a.preconditions.is_empty());
    assert!(a.effect.is_none());
    assert_eq!(a.clone(), a);
}

#[test]
fn missing_variable_after_failed_precondition_is_a_fault() {
    let a = Action::new("act")
        .with_precondition(("a", Assert::eq(Value::Bool(true))))
        .with_precondition(("missing", Assert::eq(Value::Bool(true))));
    let s = WorldState::new().set("a", Value::Bool(false));
    assert_eq!(a.check_preconditions(&s), Err(PlanError::MissingVariable("missing".to_string())));
}

#[test]
fn first_absent_variable_is_reported_before_a_tag_mismatch() {
    let a = Action::new("act")
        .with_precondition(("flag", Assert::gt(Value::I64(1))))
        .with_precondition(("absent", Assert::eq(Value::Bool(true))))
        .with_precondition(("other", Assert::eq(Value::Bool(true))));
    let s = WorldState::new().set("flag", Value::Bool(true));
    assert_eq!(a.check_preconditions(&s), Err(PlanError::MissingVariable("absent".to_string())));
    let t = s.set("absent", Value::Bool(true)).set("other", Value::Bool(true));
    assert_eq!(a.check_preconditions(&t), Err(PlanError::TypeMismatch("flag".to_string())));
}
