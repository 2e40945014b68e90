use vstd::prelude::*;

use crate::bound::Bound;
use crate::domain::{
    in_interval, spec_add_domain, spec_divide_domain, spec_multiply_domain, spec_subtract_domain, Domain,
};
use crate::number::{is_nan, num_le, num_lt, ZERO_BITS};

verus! {

/// `a` lies at or above `b` exactly when `b` lies at or below `a`.
pub proof fn lemma_gte_mirrors_lte(a: Bound, b: Bound)
    ensures
        a.spec_gte(b) == b.spec_lte(a),
{
}

/// Narrowing a lower end keeps one of the two ends, and narrowing an end by
/// itself keeps it.
pub proof fn lemma_shrink_left_picks_an_operand(a: Bound, b: Bound)
    ensures
        a.spec_shrink_left(b) == a || a.spec_shrink_left(b) == b,
        a.spec_shrink_left(a) == a,
{
}

/// Narrowing an upper end keeps one of the two ends, and narrowing an end
/// by itself keeps it.
pub proof fn lemma_shrink_right_picks_an_operand(a: Bound, b: Bound)
    ensures
        a.spec_shrink_right(b) == a || a.spec_shrink_right(b) == b,
        a.spec_shrink_right(a) == a,
{
}

/// Merging an unknown domain changes nothing, and merging into an unknown
/// domain takes the other domain whole.
pub proof fn lemma_merge_unknown_is_neutral(d: Domain)
    ensures
        d.merged(Domain::Unknown) == d,
        Domain::Unknown.merged(d) == d,
{
}

/// Merging a domain into itself changes nothing.
pub proof fn lemma_merge_idempotent(d: Domain)
    requires
        d.merge_defined(d),
    ensures
        d.merged(d) == d,
{
}

/// A removed domain stays removed when a known domain is merged into it,
/// and merging a removal into a known domain removes it.
pub proof fn lemma_merge_removed_absorbs(d: Domain)
    requires
        !(d is Unknown),
    ensures
        Domain::Removed.merged(d) == Domain::Removed,
        d.merged(Domain::Removed) == Domain::Removed,
{
}

/// Merging the same domain a second time changes nothing more.
pub proof fn lemma_merge_twice_same_as_once(d: Domain, o: Domain)
    requires
        d.merge_defined(o),
        o.merge_defined(o),
    ensures
        d.merged(o).merge_defined(o),
        d.merged(o).merged(o) == d.merged(o),
{
}

/// Merging two intervals gives an interval whose ends are drawn from the two.
pub proof fn lemma_merge_narrows_intervals(a: Bound, b: Bound, x: Bound, y: Bound)
    ensures
        Domain::Number(a, b).merged(Domain::Number(x, y)) matches Domain::Number(l, h) && (l == a
            || l == x) && (h == b || h == y),
{
}

/// Merging two different known kinds of domain, neither of them removed,
/// gives a mixed-type domain.
pub proof fn lemma_merge_different_kinds_mix(d: Domain, e: Domain)
    requires
        !(d is Unknown) && !(d is Removed) && !(e is Unknown) && !(e is Removed),
        !(d is Number && e is Number),
        d != e,
    ensures
        d.merged(e) == Domain::MultiType,
{
}

/// Apart from a removed domain, which shares nothing, sharing a value is
/// symmetric.
pub proof fn lemma_intersects_symmetric(d: Domain, e: Domain)
    requires
        !(d is Removed) && !(e is Removed),
    ensures
        d.spec_intersects(e) == e.spec_intersects(d),
{
}

/// An unknown domain shares a value with every domain that is not removed,
/// and a removed domain shares none.
pub proof fn lemma_intersects_unknown(d: Domain)
    ensures
        d.spec_intersects(Domain::Unknown) == !(d is Removed),
        !Domain::Removed.spec_intersects(d),
{
}

/// An unknown operand makes every arithmetic operation yield the other operand.
pub proof fn lemma_arithmetic_unknown_identity(d: Domain, f: spec_fn(u64, u64) -> u64)
    ensures
        spec_add_domain(Domain::Unknown, d, f) == d,
        spec_add_domain(d, Domain::Unknown, f) == d,
        spec_subtract_domain(Domain::Unknown, d, f) == d,
        spec_subtract_domain(d, Domain::Unknown, f) == d,
        spec_multiply_domain(Domain::Unknown, d, f) == d,
        spec_multiply_domain(d, Domain::Unknown, f) == d,
        spec_divide_domain(Domain::Unknown, d, f) == d,
        spec_divide_domain(d, Domain::Unknown, f) == d,
{
}

/// The order of encoded numbers is the order of the numbers they stand
/// for.  A NaN is ordered with nothing.  Other numbers are totally ordered.
/// The two zeros are equal.  Among encodings without the sign bit a larger
/// encoding is a larger number; among encodings with it, a larger encoding
/// is a smaller number.  A number with the sign bit lies below one without
/// it unless both are zeros.
pub proof fn lemma_number_order(a: u64, b: u64)
    ensures
        is_nan(a) || is_nan(b) ==> !num_le(a, b) && !num_lt(a, b),
        !is_nan(a) && !is_nan(b) ==> (num_le(a, b) || num_le(b, a)),
        !is_nan(a) && !is_nan(b) ==> (num_lt(a, b) <==> !num_le(b, a)),
        num_le(0, 0x8000_0000_0000_0000) && num_le(0x8000_0000_0000_0000, 0),
        !is_nan(a) && !is_nan(b) && a < 0x8000_0000_0000_0000 && b < 0x8000_0000_0000_0000 ==> (num_lt(a, b) <==> a < b),
        !is_nan(a) && !is_nan(b) && a >= 0x8000_0000_0000_0000 && b >= 0x8000_0000_0000_0000 ==> (num_lt(a, b) <==> b < a),
        !is_nan(a) && !is_nan(b) && a >= 0x8000_0000_0000_0000 && b < 0x8000_0000_0000_0000 && !(a == 0x8000_0000_0000_0000
            && b == 0) ==> num_lt(a, b),
{
}

/// The order of encoded numbers is transitive.
pub proof fn lemma_number_order_transitive(a: u64, b: u64, c: u64)
    ensures
        num_le(a, b) && num_le(b, c) ==> num_le(a, c),
        num_lt(a, b) && num_le(b, c) ==> num_lt(a, c),
        num_le(a, b) && num_lt(b, c) ==> num_lt(a, c),
{
}

/// Two finite ends compare by the numbers they carry: with `<=` when both
/// are included and with `<` when either is excluded.  Minus infinity lies
/// at or below every end and every end at or below plus infinity; plus
/// infinity lies below no finite end, and no finite end below minus
/// infinity.
pub proof fn lemma_lte_compares_numbers(a: u64, b: u64, e: Bound)
    ensures
        Bound::Included(a).spec_lte(Bound::Included(b)) == num_le(a, b),
        Bound::Included(a).spec_lte(Bound::Excluded(b)) == num_lt(a, b),
        Bound::Excluded(a).spec_lte(Bound::Included(b)) == num_lt(a, b),
        Bound::Excluded(a).spec_lte(Bound::Excluded(b)) == num_lt(a, b),
        Bound::Included(a).spec_gte(Bound::Included(b)) == num_le(b, a),
        Bound::Included(a).spec_gte(Bound::Excluded(b)) == num_lt(b, a),
        Bound::Excluded(a).spec_gte(Bound::Included(b)) == num_lt(b, a),
        Bound::Excluded(a).spec_gte(Bound::Excluded(b)) == num_lt(b, a),
        Bound::NegativeInfinity.spec_lte(e),
        e.spec_lte(Bound::Infinity),
        e.is_finite() ==> !Bound::Infinity.spec_lte(e) && !e.spec_lte(Bound::NegativeInfinity),
{
}

/// The interval from a finite lower end up to plus infinity meets the
/// interval from minus infinity up to a finite upper end exactly when the
/// lower end's number lies below the upper end's (or at it, when both are
/// included).
pub proof fn lemma_half_lines_meet(lo: Bound, hi: Bound)
    requires
        lo.is_finite(),
        hi.is_finite(),
    ensures
        Domain::Number(lo, Bound::Infinity).spec_intersects(Domain::Number(Bound::NegativeInfinity, hi)) == if lo is Included
            && hi is Included {
            num_le(lo.value(), hi.value())
        } else {
            num_lt(lo.value(), hi.value())
        },
{
}

/// A finite end times an infinite one is infinite, with the infinity's sign
/// flipped exactly when the finite end's number is negative (zero and NaN
/// count as not negative); two infinities of one sign give plus infinity.
pub proof fn lemma_multiply_by_infinity(e: Bound, f: spec_fn(u64, u64) -> u64)
    requires
        e.is_finite(),
    ensures
        !num_lt(e.value(), ZERO_BITS) ==> e.spec_multiply(Bound::NegativeInfinity, f) == Bound::NegativeInfinity
            && Bound::NegativeInfinity.spec_multiply(e, f) == Bound::NegativeInfinity && e.spec_multiply(
            Bound::Infinity,
            f,
        ) == Bound::Infinity && Bound::Infinity.spec_multiply(e, f) == Bound::Infinity,
        num_lt(e.value(), ZERO_BITS) ==> e.spec_multiply(Bound::NegativeInfinity, f) == Bound::Infinity
            && Bound::NegativeInfinity.spec_multiply(e, f) == Bound::Infinity && e.spec_multiply(Bound::Infinity, f)
            == Bound::NegativeInfinity && Bound::Infinity.spec_multiply(e, f) == Bound::NegativeInfinity,
        Bound::NegativeInfinity.spec_multiply(Bound::NegativeInfinity, f) == Bound::Infinity,
        Bound::Infinity.spec_multiply(Bound::Infinity, f) == Bound::Infinity,
{
}

/// Dividing plus infinity by a finite end, or a finite end by plus
/// infinity, gives an infinity that is minus infinity exactly when the
/// finite end's number is negative; minus infinity on either side gives
/// minus infinity, and on both sides plus infinity.
pub proof fn lemma_divide_by_infinity(e: Bound, f: spec_fn(u64, u64) -> u64)
    requires
        e.is_finite(),
    ensures
        Bound::Infinity.spec_divide(e, f) == if num_lt(e.value(), ZERO_BITS) {
            Bound::NegativeInfinity
        } else {
            Bound::Infinity
        },
        e.spec_divide(Bound::Infinity, f) == if num_lt(e.value(), ZERO_BITS) {
            Bound::NegativeInfinity
        } else {
            Bound::Infinity
        },
        Bound::NegativeInfinity.spec_divide(e, f) == Bound::NegativeInfinity,
        e.spec_divide(Bound::NegativeInfinity, f) == Bound::NegativeInfinity,
        Bound::NegativeInfinity.spec_divide(Bound::NegativeInfinity, f) == Bound::Infinity,
        Bound::Infinity.spec_divide(Bound::Infinity, f) == Bound::Infinity,
{
}

/// Adding plus infinity to anything gives plus infinity, and adding minus
/// infinity to a finite end gives minus infinity.  Subtracting from plus
/// infinity gives plus infinity; a finite end minus plus infinity is minus
/// infinity and minus minus infinity is plus infinity; minus infinity less
/// a finite end stays minus infinity.
pub proof fn lemma_add_subtract_infinity(e: Bound, any: Bound, f: spec_fn(u64, u64) -> u64)
    requires
        e.is_finite(),
    ensures
        any.spec_add(Bound::Infinity, f) == Bound::Infinity,
        Bound::Infinity.spec_add(any, f) == Bound::Infinity,
        e.spec_add(Bound::NegativeInfinity, f) == Bound::NegativeInfinity,
        Bound::NegativeInfinity.spec_add(e, f) == Bound::NegativeInfinity,
        Bound::Infinity.spec_subtract(any, f) == Bound::Infinity,
        e.spec_subtract(Bound::Infinity, f) == Bound::NegativeInfinity,
        e.spec_subtract(Bound::NegativeInfinity, f) == Bound::Infinity,
        Bound::NegativeInfinity.spec_subtract(e, f) == Bound::NegativeInfinity,
{
}

/// Arithmetic on two finite ends gives a finite end, excluded exactly when
/// either operand is.  On two included ends it is the operation applied to
/// their numbers, and on an excluded left end, the operation applied to the
/// two ends' numbers.
pub proof fn lemma_finite_arithmetic(a: Bound, b: Bound, f: spec_fn(u64, u64) -> u64)
    requires
        a.is_finite(),
        b.is_finite(),
    ensures
        ({
            let rs = seq![a.spec_add(b, f), a.spec_subtract(b, f), a.spec_multiply(b, f), a.spec_divide(b, f)];
            forall|i: int|
                0 <= i < 4 ==> {
                    &&& (#[trigger] rs[i]).is_finite()
                    &&& (rs[i] is Excluded <==> (a is Excluded || b is Excluded))
                    &&& (a is Included && b is Included) ==> rs[i] == Bound::Included(f(a.value(), b.value()))
                    &&& a is Excluded ==> rs[i] == Bound::Excluded(f(a.value(), b.value()))
                }
        }),
{
}

/// A one-point interval times all numbers (in either order) is all
/// numbers, whatever the point.
pub proof fn lemma_point_times_all_numbers(n: u64, f: spec_fn(u64, u64) -> u64)
    ensures
        spec_multiply_domain(
            Domain::Number(Bound::Included(n), Bound::Included(n)),
            Domain::Number(Bound::NegativeInfinity, Bound::Infinity),
            f,
        ) == Domain::Number(Bound::NegativeInfinity, Bound::Infinity),
        spec_multiply_domain(
            Domain::Number(Bound::NegativeInfinity, Bound::Infinity),
            Domain::Number(Bound::Included(n), Bound::Included(n)),
            f,
        ) == Domain::Number(Bound::NegativeInfinity, Bound::Infinity),
{
}

/// Narrowing a lower end by another keeps one of the two, the one with the
/// larger number, for finite ends that are not NaN; the exception is an
/// included end narrowed by an excluded one, left out here.  In particular
/// two excluded ends narrow to the excluded larger number.
pub proof fn lemma_shrink_left_keeps_the_larger(a: Bound, b: Bound)
    requires
        a.is_finite(),
        b.is_finite(),
        !is_nan(a.value()),
        !is_nan(b.value()),
        !(a is Included && b is Excluded),
    ensures
        a.spec_shrink_left(b) == a || a.spec_shrink_left(b) == b,
        num_le(a.value(), a.spec_shrink_left(b).value()),
        num_le(b.value(), a.spec_shrink_left(b).value()),
{
}

/// Narrowing an upper end by another keeps one of the two, the one with the
/// smaller number, for finite ends that are not NaN; the exception is an
/// included end narrowed by an excluded one, left out here.
pub proof fn lemma_shrink_right_keeps_the_smaller(a: Bound, b: Bound)
    requires
        a.is_finite(),
        b.is_finite(),
        !is_nan(a.value()),
        !is_nan(b.value()),
        !(a is Included && b is Excluded),
    ensures
        a.spec_shrink_right(b) == a || a.spec_shrink_right(b) == b,
        num_le(a.spec_shrink_right(b).value(), a.value()),
        num_le(a.spec_shrink_right(b).value(), b.value()),
{
}

/// Narrowing the lower end by minus infinity, or the upper end by plus
/// infinity, keeps the end; and minus infinity (plus infinity) as the end
/// narrowed gives way to the other end.
pub proof fn lemma_shrink_by_infinity(e: Bound)
    ensures
        e.spec_shrink_left(Bound::NegativeInfinity) == e,
        Bound::NegativeInfinity.spec_shrink_left(e) == e,
        e.spec_shrink_right(Bound::Infinity) == e,
        Bound::Infinity.spec_shrink_right(e) == e,
{
}

/// Merging two intervals whose ends are finite numbers, where no included
/// end is narrowed by an excluded one, keeps the larger lower number and
/// the smaller upper number.
pub proof fn lemma_merge_intersects_intervals(a: Bound, b: Bound, x: Bound, y: Bound)
    requires
        a.is_finite() && b.is_finite() && x.is_finite() && y.is_finite(),
        !is_nan(a.value()) && !is_nan(b.value()) && !is_nan(x.value()) && !is_nan(y.value()),
        !(a is Included && x is Excluded),
        !(b is Included && y is Excluded),
    ensures
        Domain::Number(a, b).merged(Domain::Number(x, y)) matches Domain::Number(l, h) && num_le(a.value(), l.value())
            && num_le(x.value(), l.value()) && num_le(h.value(), b.value()) && num_le(h.value(), y.value()),
{
    lemma_shrink_left_keeps_the_larger(a, x);
    lemma_shrink_right_keeps_the_smaller(b, y);
}

/// Two intervals that share a number meet: `intersects` never misses a
/// number that lies in both.
pub proof fn lemma_shared_number_meets(d: Domain, e: Domain, x: u64)
    requires
        in_interval(d, x),
        in_interval(e, x),
    ensures
        d.spec_intersects(e),
{
}

/// A string domain meets a string domain, and two different known kinds of
/// domain (string, number, record, mixed), neither of them unknown or
/// removed, meet only when both are numbers or both strings.
pub proof fn lemma_kinds_meet(d: Domain, e: Domain)
    requires
        !(d is Unknown) && !(d is Removed) && !(e is Unknown) && !(e is Removed),
    ensures
        Domain::String.spec_intersects(Domain::String),
        !(d is Number && e is Number) && !(d is String && e is String) ==> !d.spec_intersects(e),
{
}

} // verus!
