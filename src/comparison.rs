use vstd::prelude::*;

use crate::value::{same_kind, value_lt, Value};

verus! {

/// A comparison against a bound value, used by preconditions and goals.
#[derive(Clone, Copy, Debug, PartialEq, Eq, Hash, Structural)]
pub enum Assert {
    /// The variable must equal the value.
    Equals(Value),
    /// The variable must differ from the value.
    NotEquals(Value),
    /// The variable must be greater than the value.
    GreaterThan(Value),
    /// The variable must be greater than or equal to the value.
    GreaterThanEquals(Value),
    /// The variable must be less than the value.
    LessThan(Value),
    /// The variable must be less than or equal to the value.
    LessThanEquals(Value),
}

/// The value that an assertion is bound to.
pub open spec fn bound_of(a: Assert) -> Value {
    match a {
        Assert::Equals(v) => v,
        Assert::NotEquals(v) => v,
        Assert::GreaterThan(v) => v,
        Assert::GreaterThanEquals(v) => v,
        Assert::LessThan(v) => v,
        Assert::LessThanEquals(v) => v,
    }
}

/// Whether evaluating `a` on `v` is defined: equality tests accept any tags,
/// ordering tests need one tag on both sides.
pub open spec fn comparable(a: Assert, v: Value) -> bool {
    match a {
        Assert::Equals(_) => true,
        Assert::NotEquals(_) => true,
        _ => same_kind(v, bound_of(a)),
    }
}

/// Whether `v` passes `a`.
pub open spec fn holds(a: Assert, v: Value) -> bool {
    match a {
        Assert::Equals(b) => v == b,
        Assert::NotEquals(b) => v != b,
        Assert::GreaterThan(b) => value_lt(b, v),
        Assert::GreaterThanEquals(b) => !value_lt(v, b),
        Assert::LessThan(b) => value_lt(v, b),
        Assert::LessThanEquals(b) => !value_lt(b, v),
    }
}

impl Assert {
    /// The variable must equal `value`.
    pub fn eq(value: Value) -> (r: Self)
        ensures
            r == Assert::Equals(value),
    {
        Assert::Equals(value)
    }

    /// The variable must differ from `value`.
    pub fn not_eq(value: Value) -> (r: Self)
        ensures
            r == Assert::NotEquals(value),
    {
        Assert::NotEquals(value)
    }

    /// The variable must be at least `value`.
    pub fn gt_eq(value: Value) -> (r: Self)
        ensures
            r == Assert::GreaterThanEquals(value),
    {
        Assert::GreaterThanEquals(value)
    }

    /// The variable must be at most `value`.
    pub fn lt_eq(value: Value) -> (r: Self)
        ensures
            r == Assert::LessThanEquals(value),
    {
        Assert::LessThanEquals(value)
    }

    /// The variable must exceed `value`.
    pub fn gt(value: Value) -> (r: Self)
        ensures
            r == Assert::GreaterThan(value),
    {
        Assert::GreaterThan(value)
    }

    /// The variable must be below `value`.
    pub fn lt(value: Value) -> (r: Self)
        ensures
            r == Assert::LessThan(value),
    {
        Assert::LessThan(value)
    }

    /// The value this assertion compares against.
    pub fn value(&self) -> (r: Value)
        ensures
            r == bound_of(*self),
    {
        match self {
            Assert::Equals(v)
            | Assert::NotEquals(v)
            | Assert::GreaterThan(v)
            | Assert::LessThan(v)
            | Assert::GreaterThanEquals(v)
            | Assert::LessThanEquals(v) => *v,
        }
    }

    /// Whether this assertion can be evaluated on `v`.
    pub fn accepts_kind_of(&self, v: &Value) -> (r: bool)
        ensures
            r == comparable(*self, *v),
    {
        match self {
            Assert::Equals(_) | Assert::NotEquals(_) => true,
            _ => v.same_kind_as(&self.value()),
        }
    }
}

fn less(a: &Value, b: &Value) -> (r: bool)
    requires
        same_kind(*a, *b),
    ensures
        r == value_lt(*a, *b),
{
    match (a, b) {
        (Value::Bool(x), Value::Bool(y)) => !*x && *y,
        (Value::I64(x), Value::I64(y)) => *x < *y,
        _ => false,
    }
}

/// Whether `value` passes `comparison`; an ordering test needs both sides to
/// carry one tag.
pub fn compare_values(comparison: &Assert, value: &Value) -> (r: bool)
    requires
        comparable(*comparison, *value),
    ensures
        r == holds(*comparison, *value),
{
    match comparison {
        Assert::Equals(v) => *value == *v,
        Assert::NotEquals(v) => *value != *v,
        Assert::GreaterThanEquals(v) => !less(value, v),
        Assert::LessThan(v) => less(value, v),
        Assert::GreaterThan(v) => less(v, value),
        Assert::LessThanEquals(v) => !less(v, value),
    }
}

} // verus!
