use vstd::prelude::*;

use crate::number::{encoded_le, encoded_lt, num_le, num_lt, ZERO_BITS};

verus! {

/// One end of a numeric interval.  A finite end carries an encoded binary64
/// number and says whether that number itself belongs to the interval.
#[derive(Clone, Copy, Debug, PartialEq, Eq, Hash, Structural)]
pub enum Bound {
    Excluded(u64),
    Included(u64),
    Infinity,
    NegativeInfinity,
}

/// The numeric operation may be applied to any two encoded numbers.
pub open spec fn total_op<F: Fn(u64, u64) -> u64>(op: F) -> bool {
    forall|x: u64, y: u64| #[trigger] call_requires(op, (x, y))
}

/// The numeric operation gives one result for two given numbers.
pub open spec fn deterministic_op<F: Fn(u64, u64) -> u64>(op: F) -> bool {
    forall|x: u64, y: u64, z1: u64, z2: u64|
        #![trigger call_ensures(op, (x, y), z1), call_ensures(op, (x, y), z2)]
        call_ensures(op, (x, y), z1) && call_ensures(op, (x, y), z2) ==> z1 == z2
}

/// A numeric operation that can be applied to any two numbers and gives one result.
pub open spec fn well_behaved<F: Fn(u64, u64) -> u64>(op: F) -> bool {
    total_op(op) && deterministic_op(op)
}

/// The numeric operation as a mathematical function.
pub open spec fn as_fn<F: Fn(u64, u64) -> u64>(op: F) -> spec_fn(u64, u64) -> u64 {
    |x: u64, y: u64| choose|z: u64| call_ensures(op, (x, y), z)
}

/// `op` was applied to `x` and `y`, and what it returned is its function's value.
pub open spec fn witnessed<F: Fn(u64, u64) -> u64>(op: F, x: u64, y: u64) -> bool {
    call_ensures(op, (x, y), as_fn(op)(x, y))
}

/// A result that a well-behaved operation returned is its function's value.
pub proof fn lemma_as_fn<F: Fn(u64, u64) -> u64>(op: F, x: u64, y: u64, z: u64)
    requires
        deterministic_op(op),
        call_ensures(op, (x, y), z),
    ensures
        as_fn(op)(x, y) == z,
{
}

impl Bound {
    pub open spec fn is_finite(self) -> bool {
        self is Excluded || self is Included
    }

    /// The encoded number of a finite bound.
    pub open spec fn value(self) -> u64 {
        match self {
            Bound::Excluded(v) => v,
            Bound::Included(v) => v,
            _ => 0,
        }
    }

    /// `self` lies at or below `other`: minus infinity lies below everything
    /// and everything below plus infinity; two included ends compare with
    /// `<=`, and when either end is excluded the comparison is strict.
    pub open spec fn spec_lte(self, other: Bound) -> bool {
        if self is NegativeInfinity || other is Infinity {
            true
        } else if self is Infinity || other is NegativeInfinity {
            false
        } else if self is Included && other is Included {
            num_le(self.value(), other.value())
        } else {
            num_lt(self.value(), other.value())
        }
    }

    /// `self` lies at or above `other`, the mirror image of `spec_lte`.
    pub open spec fn spec_gte(self, other: Bound) -> bool {
        if self is Infinity || other is NegativeInfinity {
            true
        } else if self is NegativeInfinity || other is Infinity {
            false
        } else if self is Included && other is Included {
            num_le(other.value(), self.value())
        } else {
            num_lt(other.value(), self.value())
        }
    }

    /// Which of two lower ends a narrowing keeps.
    pub open spec fn spec_shrink_left(self, other: Bound) -> Bound {
        match (self, other) {
            (Bound::NegativeInfinity, _) => other,
            (_, Bound::NegativeInfinity) => self,
            (Bound::Included(a), Bound::Included(b)) => if num_le(b, a) { self } else { other },
            (Bound::Excluded(a), _) => if num_lt(other.value(), a) { self } else { other },
            (_, _) => if num_lt(self.value(), other.value()) { self } else { other },
        }
    }

    /// Which of two upper ends a narrowing keeps.
    pub open spec fn spec_shrink_right(self, other: Bound) -> Bound {
        match (self, other) {
            (Bound::Infinity, _) => other,
            (_, Bound::Infinity) => self,
            (Bound::Included(a), Bound::Included(b)) => if num_le(a, b) { self } else { other },
            (Bound::Excluded(a), _) => if num_lt(a, other.value()) { self } else { other },
            (_, _) => if num_lt(other.value(), self.value()) { self } else { other },
        }
    }

    /// The numeric operation on two finite ends: `f` applied to their
    /// operands, excluded when either end is.
    pub open spec fn combine(self, b: Bound, f: spec_fn(u64, u64) -> u64) -> Bound {
        let (x, y) = self.operands(b);
        if self is Excluded || b is Excluded {
            Bound::Excluded(f(x, y))
        } else {
            Bound::Included(f(x, y))
        }
    }

    /// The two encoded numbers that combining finite ends works on: those of
    /// the two ends, except that when only the second end is excluded its own
    /// number is taken twice.
    pub open spec fn operands(self, b: Bound) -> (u64, u64) {
        match (self, b) {
            (Bound::Excluded(v), _) => (v, b.value()),
            (_, Bound::Excluded(v)) => (v, v),
            (_, _) => (self.value(), b.value()),
        }
    }

    /// When both ends are finite, `op` was applied to their operands and
    /// returned its function's value.
    pub open spec fn combination_witnessed<F: Fn(u64, u64) -> u64>(self, b: Bound, op: F) -> bool {
        self.is_finite() && b.is_finite() ==> witnessed(op, self.operands(b).0, self.operands(b).1)
    }

    /// Sum of two ends.  An infinite operand decides the result, plus
    /// infinity first; otherwise the numbers are added as
    /// `combine` says.
    pub open spec fn spec_add(self, b: Bound, f: spec_fn(u64, u64) -> u64) -> Bound {
        match (self, b) {
            (Bound::Infinity, _) => Bound::Infinity,
            (_, Bound::Infinity) => Bound::Infinity,
            (Bound::NegativeInfinity, _) => Bound::NegativeInfinity,
            (_, Bound::NegativeInfinity) => Bound::NegativeInfinity,
            (_, _) => self.combine(b, f),
        }
    }

    /// Difference of two ends, with the infinities resolved first in the
    /// order plus infinity on the left, on the right, then minus infinity on
    /// the left, on the right; finite ends as for `add_outcome`.
    pub open spec fn spec_subtract(self, b: Bound, f: spec_fn(u64, u64) -> u64) -> Bound {
        match (self, b) {
            (Bound::Infinity, _) => Bound::Infinity,
            (_, Bound::Infinity) => Bound::NegativeInfinity,
            (Bound::NegativeInfinity, _) => Bound::NegativeInfinity,
            (_, Bound::NegativeInfinity) => Bound::Infinity,
            (_, _) => self.combine(b, f),
        }
    }

    /// Product of two ends: an infinite operand gives an infinity whose
    /// sign flips when the other operand is a negative number.
    pub open spec fn spec_multiply(self, b: Bound, f: spec_fn(u64, u64) -> u64) -> Bound {
        match (self, b) {
            (Bound::NegativeInfinity, Bound::NegativeInfinity) => Bound::Infinity,
            (Bound::NegativeInfinity, _) => if num_lt(b.value(), ZERO_BITS) { Bound::Infinity } else { Bound::NegativeInfinity },
            (_, Bound::NegativeInfinity) => if num_lt(self.value(), ZERO_BITS) { Bound::Infinity } else { Bound::NegativeInfinity },
            (Bound::Infinity, Bound::Infinity) => Bound::Infinity,
            (Bound::Infinity, _) => if num_lt(b.value(), ZERO_BITS) { Bound::NegativeInfinity } else { Bound::Infinity },
            (_, Bound::Infinity) => if num_lt(self.value(), ZERO_BITS) { Bound::NegativeInfinity } else { Bound::Infinity },
            (_, _) => self.combine(b, f),
        }
    }

    /// The two operand pairs on which a product of ends is undefined.
    pub open spec fn multiply_defined(self, b: Bound) -> bool {
        !(self is NegativeInfinity && b is Infinity) && !(self is Infinity && b is NegativeInfinity)
    }

    /// Quotient of two ends: minus infinity on either side gives minus
    /// infinity (both sides: plus infinity); plus infinity on one side gives
    /// an infinity whose sign flips when the other side is a negative number.
    pub open spec fn spec_divide(self, b: Bound, f: spec_fn(u64, u64) -> u64) -> Bound {
        match (self, b) {
            (Bound::NegativeInfinity, Bound::NegativeInfinity) => Bound::Infinity,
            (Bound::NegativeInfinity, _) => Bound::NegativeInfinity,
            (_, Bound::NegativeInfinity) => Bound::NegativeInfinity,
            (Bound::Infinity, Bound::Infinity) => Bound::Infinity,
            (Bound::Infinity, _) => if num_lt(b.value(), ZERO_BITS) { Bound::NegativeInfinity } else { Bound::Infinity },
            (_, Bound::Infinity) => if num_lt(self.value(), ZERO_BITS) { Bound::NegativeInfinity } else { Bound::Infinity },
            (_, _) => self.combine(b, f),
        }
    }

    pub fn unwrap(&self) -> (v: u64)
        requires
            self.is_finite(),
        ensures
            v == self.value(),
    {
        match self {
            Bound::Included(v) => *v,
            Bound::Excluded(v) => *v,
            _ => 0,
        }
    }

    pub fn lte(&self, other: &Bound) -> (r: bool)
        ensures
            r == self.spec_lte(*other),
    {
        match (self, other) {
            (Bound::Infinity, Bound::NegativeInfinity) => false,
            (Bound::NegativeInfinity, _) => true,
            (_, Bound::NegativeInfinity) => false,
            (_, Bound::Infinity) => true,
            (Bound::Infinity, _) => false,
            (Bound::Included(a), Bound::Included(b)) => encoded_le(*a, *b),
            _ => encoded_lt(self.unwrap(), other.unwrap()),
        }
    }

    pub fn gte(&self, other: &Bound) -> (r: bool)
        ensures
            r == self.spec_gte(*other),
    {
        match (self, other) {
            (Bound::NegativeInfinity, Bound::Infinity) => false,
            (Bound::Infinity, _) => true,
            (_, Bound::Infinity) => false,
            (_, Bound::NegativeInfinity) => true,
            (Bound::NegativeInfinity, _) => false,
            (Bound::Included(a), Bound::Included(b)) => encoded_le(*b, *a),
            _ => encoded_lt(other.unwrap(), self.unwrap()),
        }
    }

    /// Narrows a lower end by another lower end.
    pub fn shrink_left(&self, other: &Bound) -> (r: Bound)
        requires
            !(self is Infinity),
            !(other is Infinity),
        ensures
            r == self.spec_shrink_left(*other),
    {
        match (self, other) {
            (Bound::NegativeInfinity, _) => *other,
            (_, Bound::NegativeInfinity) => *self,
            (Bound::Included(a), Bound::Included(b)) => {
                if encoded_le(*b, *a) {
                    *self
                } else {
                    *other
                }
            },
            (Bound::Excluded(a), _) => {
                if encoded_lt(other.unwrap(), *a) {
                    *self
                } else {
                    *other
                }
            },
            (_, Bound::Excluded(b)) => {
                if encoded_lt(self.unwrap(), *b) {
                    *self
                } else {
                    *other
                }
            },
            _ => *other,
        }
    }

    /// Narrows an upper end by another upper end.
    pub fn shrink_right(&self, other: &Bound) -> (r: Bound)
        requires
            !(self is NegativeInfinity),
            !(other is NegativeInfinity),
        ensures
            r == self.spec_shrink_right(*other),
    {
        match (self, other) {
            (Bound::Infinity, _) => *other,
            (_, Bound::Infinity) => *self,
            (Bound::Included(a), Bound::Included(b)) => {
                if encoded_le(*a, *b) {
                    *self
                } else {
                    *other
                }
            },
            (Bound::Excluded(a), _) => {
                if encoded_lt(*a, other.unwrap()) {
                    *self
                } else {
                    *other
                }
            },
            (_, Bound::Excluded(b)) => {
                if encoded_lt(*b, self.unwrap()) {
                    *self
                } else {
                    *other
                }
            },
            _ => *other,
        }
    }

    /// Applies `op` to the numbers of two finite ends.
    fn combine_finite<F: Fn(u64, u64) -> u64>(&self, b: &Bound, op: &F) -> (r: Bound)
        requires
            self.is_finite(),
            b.is_finite(),
            well_behaved(*op),
        ensures
            r == self.combine(*b, as_fn(*op)),
            self.combination_witnessed(*b, *op),
    {
        let (x, y, excluded) = match (self, b) {
            (Bound::Excluded(v), _) => (*v, b.unwrap(), true),
            (_, Bound::Excluded(v)) => (*v, b.unwrap(), true),
            _ => (self.unwrap(), b.unwrap(), false),
        };
        let z = op(x, y);
        proof {
            lemma_as_fn(*op, x, y, z);
        }
        if excluded {
            Bound::Excluded(z)
        } else {
            Bound::Included(z)
        }
    }

    /// Adds two ends, combining their numbers with `add`.
    pub fn add<F: Fn(u64, u64) -> u64>(&self, b: &Bound, add: &F) -> (r: Bound)
        requires
            well_behaved(*add),
        ensures
            r == self.spec_add(*b, as_fn(*add)),
            self.combination_witnessed(*b, *add),
    {
        match (self, b) {
            (Bound::Infinity, _) => Bound::Infinity,
            (_, Bound::Infinity) => Bound::Infinity,
            (Bound::NegativeInfinity, _) => Bound::NegativeInfinity,
            (_, Bound::NegativeInfinity) => Bound::NegativeInfinity,
            _ => self.combine_finite(b, add),
        }
    }

    /// Subtracts two ends, combining their numbers with `subtract`.
    pub fn subtract<F: Fn(u64, u64) -> u64>(&self, b: &Bound, subtract: &F) -> (r: Bound)
        requires
            well_behaved(*subtract),
        ensures
            r == self.spec_subtract(*b, as_fn(*subtract)),
            self.combination_witnessed(*b, *subtract),
    {
        match (self, b) {
            (Bound::Infinity, _) => Bound::Infinity,
            (_, Bound::Infinity) => Bound::NegativeInfinity,
            (Bound::NegativeInfinity, _) => Bound::NegativeInfinity,
            (_, Bound::NegativeInfinity) => Bound::Infinity,
            _ => self.combine_finite(b, subtract),
        }
    }

    /// Multiplies two ends, combining their numbers with `multiply`.
    pub fn multiply<F: Fn(u64, u64) -> u64>(&self, b: &Bound, multiply: &F) -> (r: Bound)
        requires
            self.multiply_defined(*b),
            well_behaved(*multiply),
        ensures
            r == self.spec_multiply(*b, as_fn(*multiply)),
            self.combination_witnessed(*b, *multiply),
    {
        match (self, b) {
            (Bound::NegativeInfinity, Bound::NegativeInfinity) => Bound::Infinity,
            (Bound::NegativeInfinity, _) => {
                if encoded_lt(b.unwrap(), ZERO_BITS) {
                    Bound::Infinity
                } else {
                    Bound::NegativeInfinity
                }
            },
            (_, Bound::NegativeInfinity) => {
                if encoded_lt(self.unwrap(), ZERO_BITS) {
                    Bound::Infinity
                } else {
                    Bound::NegativeInfinity
                }
            },
            (Bound::Infinity, Bound::Infinity) => Bound::Infinity,
            (Bound::Infinity, _) => {
                if encoded_lt(b.unwrap(), ZERO_BITS) {
                    Bound::NegativeInfinity
                } else {
                    Bound::Infinity
                }
            },
            (_, Bound::Infinity) => {
                if encoded_lt(self.unwrap(), ZERO_BITS) {
                    Bound::NegativeInfinity
                } else {
                    Bound::Infinity
                }
            },
            _ => self.combine_finite(b, multiply),
        }
    }

    /// Divides two ends, combining their numbers with `divide`.
    pub fn divide<F: Fn(u64, u64) -> u64>(&self, b: &Bound, divide: &F) -> (r: Bound)
        requires
            well_behaved(*divide),
        ensures
            r == self.spec_divide(*b, as_fn(*divide)),
            self.combination_witnessed(*b, *divide),
    {
        match (self, b) {
            (Bound::NegativeInfinity, Bound::NegativeInfinity) => Bound::Infinity,
            (Bound::NegativeInfinity, _) => Bound::NegativeInfinity,
            (_, Bound::NegativeInfinity) => Bound::NegativeInfinity,
            (Bound::Infinity, Bound::Infinity) => Bound::Infinity,
            (Bound::Infinity, _) => {
                if encoded_lt(b.unwrap(), ZERO_BITS) {
                    Bound::NegativeInfinity
                } else {
                    Bound::Infinity
                }
            },
            (_, Bound::Infinity) => {
                if encoded_lt(self.unwrap(), ZERO_BITS) {
                    Bound::NegativeInfinity
                } else {
                    Bound::Infinity
                }
            },
            _ => self.combine_finite(b, divide),
        }
    }
}

} // verus!
