use vstd::prelude::*;

use crate::bound::{as_fn, well_behaved, Bound};
use crate::number::{num_le, num_lt, ZERO_BITS};

verus! {

/// What is known of the values a field can take.
#[derive(Clone, Copy, Debug, PartialEq, Eq, Hash, Structural)]
pub enum Domain {
    Unknown,
    Number(Bound, Bound),
    String,
    Record,
    MultiType,
    Removed,
}

/// The kinds of value an attribute can hold.
#[derive(Clone, Copy, Debug, PartialEq, Eq, Hash, Structural)]
pub enum ValueType {
    Number,
    String,
    Record,
    Any,
}

impl Domain {
    /// Two domains can share a value: a removed domain shares none, an
    /// unknown one shares any, strings share with strings, and two numeric
    /// intervals share when each starts at or below the end of the other.
    pub open spec fn spec_intersects(self, other: Domain) -> bool {
        match (self, other) {
            (Domain::Removed, _) => false,
            (Domain::Unknown, _) => true,
            (_, Domain::Unknown) => true,
            (Domain::String, Domain::String) => true,
            (Domain::Number(a, b), Domain::Number(x, y)) => a.spec_lte(y) && x.spec_lte(b),
            (_, _) => false,
        }
    }

    /// Merging is defined unless two intervals meet with plus infinity as a
    /// lower end or minus infinity as an upper end.
    pub open spec fn merge_defined(self, other: Domain) -> bool {
        match (self, other) {
            (Domain::Number(a, b), Domain::Number(x, y)) => !(a is Infinity) && !(x is Infinity)
                && !(b is NegativeInfinity) && !(y is NegativeInfinity),
            (_, _) => true,
        }
    }

    /// The domain that merging `other` into `self` produces: unknown yields
    /// to the other side, removed wins over everything else, intervals are
    /// narrowed end by end, equal domains stay, and anything else mixes types.
    pub open spec fn merged(self, other: Domain) -> Domain {
        match (self, other) {
            (Domain::Unknown, _) => other,
            (_, Domain::Unknown) => self,
            (Domain::Removed, _) => self,
            (_, Domain::Removed) => other,
            (Domain::Number(a, b), Domain::Number(x, y)) => Domain::Number(
                a.spec_shrink_left(x),
                b.spec_shrink_right(y),
            ),
            (_, _) => if self == other { self } else { Domain::MultiType },
        }
    }

    pub fn intersects(&self, other: &Domain) -> (r: bool)
        ensures
            r == self.spec_intersects(*other),
    {
        match (self, other) {
            (Domain::Removed, _) => false,
            (Domain::Unknown, _) => true,
            (_, Domain::Unknown) => true,
            (Domain::String, Domain::String) => true,
            (Domain::Number(a, b), Domain::Number(x, y)) => a.lte(y) && x.lte(b),
            _ => false,
        }
    }

    /// Merges `other` into `self` and tells whether `self` changed.
    pub fn merge(&mut self, other: &Domain) -> (changed: bool)
        requires
            old(self).merge_defined(*other),
        ensures
            *final(self) == old(self).merged(*other),
            changed == (*final(self) != *old(self)),
    {
        let neue = match (*self, other) {
            (Domain::Unknown, _) => *other,
            (_, Domain::Unknown) => *self,
            (Domain::Removed, _) => *self,
            (_, Domain::Removed) => *other,
            (Domain::Number(a, b), Domain::Number(x, y)) => Domain::Number(
                a.shrink_left(x),
                b.shrink_right(y),
            ),
            (a, b) => {
                if a == *b {
                    a
                } else {
                    Domain::MultiType
                }
            },
        };
        let changed = *self != neue;
        *self = neue;
        changed
    }
}

/// Arithmetic on domains is defined when one side is unknown or both are intervals.
pub open spec fn arithmetic_defined(a: Domain, b: Domain) -> bool {
    a is Unknown || b is Unknown || (a is Number && b is Number)
}

/// The sum of `a` and `b` with numbers added by `f`: an unknown side
/// yields the other side, and intervals are added end by end.
pub open spec fn spec_add_domain(a: Domain, b: Domain, f: spec_fn(u64, u64) -> u64) -> Domain {
    match (a, b) {
        (Domain::Unknown, _) => b,
        (_, Domain::Unknown) => a,
        (Domain::Number(l1, h1), Domain::Number(l2, h2)) => Domain::Number(
            l1.spec_add(l2, f),
            h1.spec_add(h2, f),
        ),
        (_, _) => Domain::Unknown,
    }
}

/// The difference of `a` and `b`: lower end minus lower end, upper end
/// minus upper end.
pub open spec fn spec_subtract_domain(a: Domain, b: Domain, f: spec_fn(u64, u64) -> u64) -> Domain {
    match (a, b) {
        (Domain::Unknown, _) => b,
        (_, Domain::Unknown) => a,
        (Domain::Number(l1, h1), Domain::Number(l2, h2)) => Domain::Number(
            l1.spec_subtract(l2, f),
            h1.spec_subtract(h2, f),
        ),
        (_, _) => Domain::Unknown,
    }
}

/// Where both operands are intervals, `op` was applied to the numbers of
/// their lower ends and of their upper ends, as far as these are finite.
pub open spec fn arithmetic_witnessed<F: Fn(u64, u64) -> u64>(a: Domain, b: Domain, op: F) -> bool {
    match (a, b) {
        (Domain::Number(l1, h1), Domain::Number(l2, h2)) => l1.combination_witnessed(l2, op)
            && h1.combination_witnessed(h2, op),
        (_, _) => true,
    }
}

/// The number `x` lies in the interval `d`: above its lower end (or at it,
/// when included) and below its upper end (or at it, when included).
pub open spec fn in_interval(d: Domain, x: u64) -> bool {
    match d {
        Domain::Number(lo, hi) => {
            &&& match lo {
                Bound::NegativeInfinity => true,
                Bound::Included(v) => num_le(v, x),
                Bound::Excluded(v) => num_lt(v, x),
                Bound::Infinity => false,
            }
            &&& match hi {
                Bound::Infinity => true,
                Bound::Included(v) => num_le(x, v),
                Bound::Excluded(v) => num_lt(x, v),
                Bound::NegativeInfinity => false,
            }
        },
        _ => false,
    }
}

/// The interval made of two computed ends: when both came out plus
/// infinity, the first is replaced by an included zero; the ends are then
/// put in order, the first one first unless it does not lie at or below
/// the second.
pub open spec fn ordered_interval(lo: Bound, hi: Bound) -> Domain {
    let lo2 = if lo is Infinity && hi is Infinity { Bound::Included(ZERO_BITS) } else { lo };
    if lo2.spec_lte(hi) {
        Domain::Number(lo2, hi)
    } else {
        Domain::Number(hi, lo2)
    }
}

/// Products of intervals are defined unless minus and plus infinity meet
/// at the lower ends or at the upper ends.
pub open spec fn product_defined(a: Domain, b: Domain) -> bool {
    match (a, b) {
        (Domain::Number(l1, h1), Domain::Number(l2, h2)) => l1.multiply_defined(l2)
            && h1.multiply_defined(h2),
        (_, _) => true,
    }
}

/// The product of `a` and `b`: lower ends and upper ends are multiplied and
/// the two results made an interval by `ordered_interval`.
pub open spec fn spec_multiply_domain(a: Domain, b: Domain, f: spec_fn(u64, u64) -> u64) -> Domain {
    match (a, b) {
        (Domain::Unknown, _) => b,
        (_, Domain::Unknown) => a,
        (Domain::Number(l1, h1), Domain::Number(l2, h2)) => ordered_interval(
            l1.spec_multiply(l2, f),
            h1.spec_multiply(h2, f),
        ),
        (_, _) => Domain::Unknown,
    }
}

/// The quotient of `a` and `b`, made up as the product is.
pub open spec fn spec_divide_domain(a: Domain, b: Domain, f: spec_fn(u64, u64) -> u64) -> Domain {
    match (a, b) {
        (Domain::Unknown, _) => b,
        (_, Domain::Unknown) => a,
        (Domain::Number(l1, h1), Domain::Number(l2, h2)) => ordered_interval(
            l1.spec_divide(l2, f),
            h1.spec_divide(h2, f),
        ),
        (_, _) => Domain::Unknown,
    }
}

/// Puts two computed ends in order, as `ordered_interval` says.
fn order_interval(lo: Bound, hi: Bound) -> (r: Domain)
    ensures
        r == ordered_interval(lo, hi),
{
    let mut left = lo;
    if left == Bound::Infinity && hi == Bound::Infinity {
        left = Bound::Included(ZERO_BITS);
    }
    if left.lte(&hi) {
        Domain::Number(left, hi)
    } else {
        Domain::Number(hi, left)
    }
}

/// Adds two domains; `add` adds two encoded numbers.
pub fn add_domain<F: Fn(u64, u64) -> u64>(a: &Domain, b: &Domain, add: &F) -> (r: Domain)
    requires
        arithmetic_defined(*a, *b),
        well_behaved(*add),
    ensures
        r == spec_add_domain(*a, *b, as_fn(*add)),
        arithmetic_witnessed(*a, *b, *add),
{
    match (a, b) {
        (Domain::Unknown, _) => *b,
        (_, Domain::Unknown) => *a,
        (Domain::Number(l1, h1), Domain::Number(l2, h2)) => Domain::Number(
            l1.add(l2, add),
            h1.add(h2, add),
        ),
        _ => Domain::Unknown,
    }
}

/// Subtracts two domains; `subtract` subtracts two encoded numbers.
pub fn subtract_domain<F: Fn(u64, u64) -> u64>(a: &Domain, b: &Domain, subtract: &F) -> (r: Domain)
    requires
        arithmetic_defined(*a, *b),
        well_behaved(*subtract),
    ensures
        r == spec_subtract_domain(*a, *b, as_fn(*subtract)),
        arithmetic_witnessed(*a, *b, *subtract),
{
    match (a, b) {
        (Domain::Unknown, _) => *b,
        (_, Domain::Unknown) => *a,
        (Domain::Number(l1, h1), Domain::Number(l2, h2)) => Domain::Number(
            l1.subtract(l2, subtract),
            h1.subtract(h2, subtract),
        ),
        _ => Domain::Unknown,
    }
}

/// Multiplies two domains; `multiply` multiplies two encoded numbers.
pub fn multiply_domain<F: Fn(u64, u64) -> u64>(a: &Domain, b: &Domain, multiply: &F) -> (r: Domain)
    requires
        arithmetic_defined(*a, *b),
        product_defined(*a, *b),
        well_behaved(*multiply),
    ensures
        r == spec_multiply_domain(*a, *b, as_fn(*multiply)),
        arithmetic_witnessed(*a, *b, *multiply),
{
    match (a, b) {
        (Domain::Unknown, _) => *b,
        (_, Domain::Unknown) => *a,
        (Domain::Number(l1, h1), Domain::Number(l2, h2)) => {
            let left = l1.multiply(l2, multiply);
            let right = h1.multiply(h2, multiply);
            order_interval(left, right)
        },
        _ => Domain::Unknown,
    }
}

/// Divides two domains; `divide` divides two encoded numbers.
pub fn divide_domain<F: Fn(u64, u64) -> u64>(a: &Domain, b: &Domain, divide: &F) -> (r: Domain)
    requires
        arithmetic_defined(*a, *b),
        well_behaved(*divide),
    ensures
        r == spec_divide_domain(*a, *b, as_fn(*divide)),
        arithmetic_witnessed(*a, *b, *divide),
{
    match (a, b) {
        (Domain::Unknown, _) => *b,
        (_, Domain::Unknown) => *a,
        (Domain::Number(l1, h1), Domain::Number(l2, h2)) => {
            let left = l1.divide(l2, divide);
            let right = h1.divide(h2, divide);
            order_interval(left, right)
        },
        _ => Domain::Unknown,
    }
}

} // verus!
