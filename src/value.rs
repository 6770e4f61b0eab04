use vstd::prelude::*;

verus! {

/// A typed scalar held by a state variable: a flag or a signed 64-bit quantity.
#[derive(Clone, Copy, Debug, PartialEq, Eq, Hash, Structural)]
pub enum Value {
    /// A logical flag, such as `is_hungry`.
    Bool(bool),
    /// A discrete quantity, such as `health` or `ammo`.
    I64(i64),
}

/// Whether two values carry the same tag.
pub open spec fn same_kind(a: Value, b: Value) -> bool {
    match (a, b) {
        (Value::Bool(_), Value::Bool(_)) => true,
        (Value::I64(_), Value::I64(_)) => true,
        _ => false,
    }
}

/// Distance between two values of one tag: 0 or 1 for flags, the absolute
/// difference for integers.
pub open spec fn value_distance(a: Value, b: Value) -> nat {
    match (a, b) {
        (Value::Bool(x), Value::Bool(y)) => if x == y { 0 } else { 1 },
        (Value::I64(x), Value::I64(y)) => if x >= y { (x - y) as nat } else { (y - x) as nat },
        _ => 0,
    }
}

/// Strict order between two values of one tag (`false < true` for flags).
pub open spec fn value_lt(a: Value, b: Value) -> bool {
    match (a, b) {
        (Value::Bool(x), Value::Bool(y)) => !x && y,
        (Value::I64(x), Value::I64(y)) => x < y,
        _ => false,
    }
}

/// Whether `a + b` (or `a - b`) is defined: two integers whose result fits in `i64`.
pub open spec fn sum_fits(a: Value, b: Value, negate: bool) -> bool {
    match (a, b) {
        (Value::I64(x), Value::I64(y)) => {
            let r = if negate { x - y } else { x + y };
            i64::MIN <= r <= i64::MAX
        },
        _ => false,
    }
}

/// The integer result of `a + b` or `a - b`; meaningful when `sum_fits` holds.
pub open spec fn value_sum(a: Value, b: Value, negate: bool) -> Value {
    match (a, b) {
        (Value::I64(x), Value::I64(y)) => Value::I64(
            (if negate { x - y } else { x + y }) as i64,
        ),
        _ => a,
    }
}

/// The distance between two values of one tag does not depend on their order.
pub proof fn lemma_distance_symmetric(a: Value, b: Value)
    requires
        same_kind(a, b),
    ensures
        value_distance(a, b) == value_distance(b, a),
{
}

impl Value {
    /// Distance from `self` to `other`; both must carry the same tag.
    pub fn distance(&self, other: &Value) -> (r: u64)
        requires
            same_kind(*self, *other),
        ensures
            r as nat == value_distance(*self, *other),
    {
        match (self, other) {
            (Value::Bool(lhs), Value::Bool(rhs)) => {
                if *lhs == *rhs {
                    0
                } else {
                    1
                }
            },
            (Value::I64(lhs), Value::I64(rhs)) => {
                let d: i128 = if *lhs >= *rhs {
                    *lhs as i128 - *rhs as i128
                } else {
                    *rhs as i128 - *lhs as i128
                };
                d as u64
            },
            _ => 0,
        }
    }

    /// Sum of two integers; fails on other tags or when the sum leaves `i64`.
    pub fn add(self, other: Value) -> (r: Option<Value>)
        ensures
            r is Some <==> sum_fits(self, other, false),
            r matches Some(v) ==> v == value_sum(self, other, false),
    {
        match (self, other) {
            (Value::I64(a), Value::I64(b)) => match a.checked_add(b) {
                Some(s) => Some(Value::I64(s)),
                None => None,
            },
            _ => None,
        }
    }

    /// Difference of two integers; fails on other tags or when it leaves `i64`.
    pub fn sub(self, other: Value) -> (r: Option<Value>)
        ensures
            r is Some <==> sum_fits(self, other, true),
            r matches Some(v) ==> v == value_sum(self, other, true),
    {
        match (self, other) {
            (Value::I64(a), Value::I64(b)) => match a.checked_sub(b) {
                Some(s) => Some(Value::I64(s)),
                None => None,
            },
            _ => None,
        }
    }

    /// Whether `self` and `other` carry the same tag.
    pub fn same_kind_as(&self, other: &Value) -> (r: bool)
        ensures
            r == same_kind(*self, *other),
    {
        match (self, other) {
            (Value::Bool(_), Value::Bool(_)) => true,
            (Value::I64(_), Value::I64(_)) => true,
            _ => false,
        }
    }
}

impl From<i64> for Value {
    fn from(value: i64) -> (r: Value) {
        Value::I64(value)
    }
}

impl vstd::std_specs::convert::FromSpecImpl<i64> for Value {
    open spec fn obeys_from_spec() -> bool {
        true
    }

    open spec fn from_spec(v: i64) -> Value {
        Value::I64(v)
    }
}

impl From<bool> for Value {
    fn from(value: bool) -> (r: Value) {
        Value::Bool(value)
    }
}

impl vstd::std_specs::convert::FromSpecImpl<bool> for Value {
    open spec fn obeys_from_spec() -> bool {
        true
    }

    open spec fn from_spec(v: bool) -> Value {
        Value::Bool(v)
    }
}

} // verus!
