use vstd::prelude::*;
use core::cmp::Ordering;

verus! {

/// A map applied to item values before they are compared with a search
/// key.
#[derive(Clone, Copy, Debug)]
pub enum Transformation {
    Identity,
    /// Multiplies the value by the factor.
    Scale(usize),
    /// Adds the amount to the value.
    Shift(usize),
}

/// The image of item value `v` under `t`.
pub open spec fn image(t: Transformation, v: usize) -> int {
    match t {
        Transformation::Identity => v as int,
        Transformation::Scale(m) => v * m,
        Transformation::Shift(k) => v + k,
    }
}

/// A search key: item values are mapped by `transformation` and then
/// compared with `value`.
#[derive(Clone, Copy, Debug)]
pub struct Value {
    pub value: usize,
    pub transformation: Transformation,
}

/// How item value `v` compares with the key `q`.
pub open spec fn cmp_spec(q: Value, v: usize) -> Ordering {
    let i = image(q.transformation, v);
    if i < q.value {
        Ordering::Less
    } else if i == q.value {
        Ordering::Equal
    } else {
        Ordering::Greater
    }
}

impl Value {
    /// The key `new` makes.
    pub open spec fn new_spec(value: usize) -> Value {
        Value { value, transformation: Transformation::Identity }
    }

    /// A key that item values are compared with as they are.
    pub fn new(value: usize) -> (r: Value)
        ensures
            r == Value::new_spec(value),
    {
        Value { value, transformation: Transformation::Identity }
    }

    /// A key that item values are compared with once `transformation` has
    /// mapped them.
    pub fn with_transformation(value: usize, transformation: Transformation) -> (r: Value)
        ensures
            r.value == value,
            r.transformation == transformation,
    {
        Value { value, transformation }
    }

    /// Compares item value `v`, mapped, with this key.
    pub fn compare(&self, v: usize) -> (r: Ordering)
        ensures
            r == cmp_spec(*self, v),
    {
        let i: u128 = match self.transformation {
            Transformation::Identity => v as u128,
            Transformation::Scale(m) => {
                proof {
                    let a = v as int;
                    let b = m as int;
                    assert(a * b <= 0xffff_ffff_ffff_ffff * 0xffff_ffff_ffff_ffff) by (nonlinear_arith)
                        requires 0 <= a <= 0xffff_ffff_ffff_ffff, 0 <= b <= 0xffff_ffff_ffff_ffff;
                }
                (v as u128) * (m as u128)
            },
            Transformation::Shift(k) => (v as u128) + (k as u128),
        };
        let q = self.value as u128;
        if i < q {
            Ordering::Less
        } else if i == q {
            Ordering::Equal
        } else {
            Ordering::Greater
        }
    }
}

} // verus!
