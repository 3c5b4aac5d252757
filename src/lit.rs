use vstd::prelude::*;

verus! {

/// A literal: a variable, numbered from 1, together with a polarity.
#[derive(Clone, Copy, Debug, PartialEq, Eq, Structural)]
pub struct Lit {
    pub var: u64,
    pub positive: bool,
}

/// The literal on the same variable with the other polarity.
pub open spec fn negated(l: Lit) -> Lit {
    Lit { var: l.var, positive: !l.positive }
}

/// The literal that the non-zero signed integer `val` encodes (the sign is
/// the polarity, the magnitude the variable).
pub open spec fn lit_of_int(val: int) -> Lit {
    Lit { var: (if val < 0 { -val } else { val }) as u64, positive: val > 0 }
}

/// The signed integer that encodes `l`.
pub open spec fn int_of_lit(l: Lit) -> int {
    if l.positive { l.var as int } else { -(l.var as int) }
}

impl Lit {
    /// The literal encoded by a non-zero signed integer.
    pub fn from_i64(val: i64) -> (r: Lit)
        requires
            val != 0,
            val != i64::MIN,
        ensures
            r == lit_of_int(val as int),
            int_of_lit(r) == val,
    {
        if val < 0 {
            Lit { var: (-val) as u64, positive: false }
        } else {
            Lit { var: val as u64, positive: true }
        }
    }

    /// The signed integer encoding of this literal.
    pub fn to_i64(&self) -> (r: i64)
        requires
            self.var <= i64::MAX,
        ensures
            r == int_of_lit(*self),
    {
        if self.positive {
            self.var as i64
        } else {
            -(self.var as i64)
        }
    }

    /// The variable of this literal.
    pub fn var(&self) -> (r: u64)
        ensures
            r == self.var,
    {
        self.var
    }

    /// Whether this literal asserts its variable true.
    pub fn is_positive(&self) -> (r: bool)
        ensures
            r == self.positive,
    {
        self.positive
    }

    /// The complementary literal.
    pub fn negate(&self) -> (r: Lit)
        ensures
            r == negated(*self),
    {
        Lit { var: self.var, positive: !self.positive }
    }
}

} // verus!
