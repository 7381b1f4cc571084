//! Single-precision numbers, held by their bits: compared and carried through, never
//! computed with.

use vstd::prelude::*;

verus! {

/// An IEEE 754 single-precision number.
#[derive(Clone, Copy, Debug, PartialEq, Eq, Structural)]
pub struct Number {
    pub bits: u32,
}

/// The bits of 1.
pub const ONE: u32 = 0x3f80_0000;

/// The bits of positive infinity.
pub const INFINITY: u32 = 0x7f80_0000;

impl Number {
    /// The number without its sign, as an integer that grows with it.
    pub open spec fn magnitude(self) -> int {
        if self.bits >= 0x8000_0000 {
            self.bits - 0x8000_0000
        } else {
            self.bits as int
        }
    }

    /// Whether this is no number at all.
    pub open spec fn is_nan_spec(self) -> bool {
        self.magnitude() > INFINITY
    }

    /// An integer that grows with the number; both zeros have 0.
    pub open spec fn rank(self) -> int {
        if self.bits >= 0x8000_0000 {
            -self.magnitude()
        } else {
            self.magnitude()
        }
    }

    /// Whether the number is below another. What is no number is below nothing.
    pub open spec fn lt(self, o: Number) -> bool {
        !self.is_nan_spec() && !o.is_nan_spec() && self.rank() < o.rank()
    }

    /// Whether the number is at most another.
    pub open spec fn le(self, o: Number) -> bool {
        !self.is_nan_spec() && !o.is_nan_spec() && self.rank() <= o.rank()
    }

    /// Whether two numbers are equal; both zeros are.
    pub open spec fn same(self, o: Number) -> bool {
        !self.is_nan_spec() && !o.is_nan_spec() && self.rank() == o.rank()
    }

    fn rank_of(self) -> (r: Option<i64>)
        ensures
            r is None <==> self.is_nan_spec(),
            r matches Some(k) ==> k == self.rank(),
    {
        let negative: bool = self.bits >= 0x8000_0000;
        let m: u32 = if negative { self.bits - 0x8000_0000 } else { self.bits };
        if m > INFINITY {
            None
        } else if negative {
            Some(-(m as i64))
        } else {
            Some(m as i64)
        }
    }

    /// Whether the number is below another.
    pub fn below(self, o: Number) -> (r: bool)
        ensures
            r == self.lt(o),
    {
        match (self.rank_of(), o.rank_of()) {
            (Some(a), Some(b)) => a < b,
            _ => false,
        }
    }

    /// Whether two numbers are equal.
    pub fn equals(self, o: Number) -> (r: bool)
        ensures
            r == self.same(o),
    {
        match (self.rank_of(), o.rank_of()) {
            (Some(a), Some(b)) => a == b,
            _ => false,
        }
    }

    /// Whether the number is at most another.
    pub fn at_most(self, o: Number) -> (r: bool)
        ensures
            r == self.le(o),
    {
        match (self.rank_of(), o.rank_of()) {
            (Some(a), Some(b)) => a <= b,
            _ => false,
        }
    }

    /// Zero.
    pub open spec fn nil() -> Number {
        Number { bits: 0 }
    }

    /// One.
    pub open spec fn unit() -> Number {
        Number { bits: ONE }
    }

    /// Zero.
    pub fn zero() -> (r: Number)
        ensures
            r == Number::nil(),
    {
        Number { bits: 0 }
    }

    /// One.
    pub fn one() -> (r: Number)
        ensures
            r == Number::unit(),
    {
        Number { bits: ONE }
    }
}

/// Of two numbers, one is below the other or the other is at most the one, and never both,
/// unless one of them is no number.
pub proof fn lemma_order_total(a: Number, b: Number)
    ensures
        !(a.lt(b) && b.le(a)),
        !a.is_nan_spec() && !b.is_nan_spec() ==> a.lt(b) || b.le(a),
        a.is_nan_spec() || b.is_nan_spec() ==> !a.lt(b) && !a.le(b),
{
}

} // verus!
