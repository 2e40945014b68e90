use analyzer::bound::Bound;
use analyzer::domain::{add_domain, divide_domain, multiply_domain, subtract_domain, Domain};

fn b(x: f64) -> u64 {
    x.to_bits()
}

fn inc(x: f64) -> Bound {
    Bound::Included(b(x))
}

fn exc(x: f64) -> Bound {
    Bound::Excluded(b(x))
}

fn num(lo: Bound, hi: Bound) -> Domain {
    Domain::Number(lo, hi)
}

fn fadd(x: u64, y: u64) -> u64 {
    (f64::from_bits(x) + f64::from_bits(y)).to_bits()
}

fn fsub(x: u64, y: u64) -> u64 {
    (f64::from_bits(x) - f64::from_bits(y)).to_bits()
}

fn fmul(x: u64, y: u64) -> u64 {
    (f64::from_bits(x) * f64::from_bits(y)).to_bits()
}

fn fdiv(x: u64, y: u64) -> u64 {
    (f64::from_bits(x) / f64::from_bits(y)).to_bits()
}

#[test]
fn lte_follows_number_order() {
    assert!(inc(1.0).lte(&inc(1.0)));
    assert!(inc(-2.5).lte(&inc(1.0)));
    assert!(!inc(2.0).lte(&inc(1.0)));
    assert!(!exc(1.0).lte(&inc(1.0)));
    assert!(!inc(1.0).lte(&exc(1.0)));
    assert!(exc(0.5).lte(&inc(1.0)));
    assert!(inc(-0.0).lte(&inc(0.0)));
    assert!(inc(0.0).lte(&inc(-0.0)));
    assert!(!inc(f64::NAN).lte(&inc(1.0)));
    assert!(inc(f64::INFINITY).lte(&inc(f64::INFINITY)));
    assert!(inc(-1.0e300).lte(&inc(-1.0e-300)));
    assert!(Bound::NegativeInfinity.lte(&Bound::NegativeInfinity));
    assert!(Bound::Infinity.lte(&Bound::Infinity));
    assert!(!Bound::Infinity.lte(&Bound::NegativeInfinity));
    assert!(Bound::NegativeInfinity.lte(&inc(3.0)));
    assert!(!inc(3.0).lte(&Bound::NegativeInfinity));
    assert!(inc(3.0).lte(&Bound::Infinity));
    assert!(!Bound::Infinity.lte(&inc(3.0)));
}

#[test]
fn lte_agrees_with_f64_on_included_ends() {
    let samples = [-3.0, -1.0, -0.0, 0.0, 0.25, 1.0, 7.5, f64::INFINITY, f64::NEG_INFINITY, f64::NAN, f64::MIN_POSITIVE, -f64::MIN_POSITIVE];
    for x in samples.iter() {
        for y in samples.iter() {
            assert_eq!(inc(*x).lte(&inc(*y)), *x <= *y, "{} <= {}", x, y);
            assert_eq!(exc(*x).lte(&inc(*y)), *x < *y, "{} < {}", x, y);
            assert_eq!(inc(*x).gte(&inc(*y)), *x >= *y, "{} >= {}", x, y);
            assert_eq!(inc(*x).gte(&exc(*y)), *x > *y, "{} > {}", x, y);
        }
    }
}

#[test]
fn gte_mirrors_lte() {
    let bounds = [inc(1.0), exc(1.0), inc(2.0), exc(-4.0), Bound::Infinity, Bound::NegativeInfinity];
    for x in bounds.iter() {
        for y in bounds.iter() {
            assert_eq!(x.gte(y), y.lte(x));
        }
    }
}

#[test]
fn shrink_left_keeps_the_larger_lower_end() {
    assert_eq!(inc(1.0).shrink_left(&inc(2.0)), inc(2.0));
    assert_eq!(inc(3.0).shrink_left(&inc(2.0)), inc(3.0));
    assert_eq!(Bound::NegativeInfinity.shrink_left(&exc(2.0)), exc(2.0));
    assert_eq!(exc(2.0).shrink_left(&Bound::NegativeInfinity), exc(2.0));
    assert_eq!(exc(3.0).shrink_left(&inc(2.0)), exc(3.0));
    assert_eq!(exc(1.0).shrink_left(&inc(2.0)), inc(2.0));
    // an included end against a larger excluded end is kept
    assert_eq!(inc(1.0).shrink_left(&exc(2.0)), inc(1.0));
    assert_eq!(inc(2.0).shrink_left(&exc(2.0)), exc(2.0));
}

#[test]
fn shrink_right_keeps_the_smaller_upper_end() {
    assert_eq!(inc(1.0).shrink_right(&inc(2.0)), inc(1.0));
    assert_eq!(inc(3.0).shrink_right(&inc(2.0)), inc(2.0));
    assert_eq!(Bound::Infinity.shrink_right(&exc(2.0)), exc(2.0));
    assert_eq!(exc(2.0).shrink_right(&Bound::Infinity), exc(2.0));
    assert_eq!(exc(1.0).shrink_right(&inc(2.0)), exc(1.0));
    assert_eq!(exc(3.0).shrink_right(&inc(2.0)), inc(2.0));
    assert_eq!(inc(3.0).shrink_right(&exc(2.0)), inc(3.0));
    assert_eq!(inc(2.0).shrink_right(&exc(2.0)), exc(2.0));
}

#[test]
fn bound_arithmetic() {
    assert_eq!(inc(1.0).add(&inc(2.0), &fadd), inc(3.0));
    assert_eq!(exc(1.0).add(&inc(2.0), &fadd), exc(3.0));
    // only the second end excluded: its number is combined with itself
    assert_eq!(inc(1.0).add(&exc(2.0), &fadd), exc(4.0));
    assert_eq!(Bound::Infinity.add(&Bound::NegativeInfinity, &fadd), Bound::Infinity);
    assert_eq!(Bound::NegativeInfinity.add(&inc(1.0), &fadd), Bound::NegativeInfinity);
    assert_eq!(inc(5.0).subtract(&inc(2.0), &fsub), inc(3.0));
    assert_eq!(inc(5.0).subtract(&Bound::Infinity, &fsub), Bound::NegativeInfinity);
    assert_eq!(inc(5.0).subtract(&Bound::NegativeInfinity, &fsub), Bound::Infinity);
    assert_eq!(inc(5.0).subtract(&exc(2.0), &fsub), exc(0.0));
    assert_eq!(inc(3.0).multiply(&inc(-2.0), &fmul), inc(-6.0));
    assert_eq!(Bound::NegativeInfinity.multiply(&inc(-2.0), &fmul), Bound::Infinity);
    assert_eq!(Bound::NegativeInfinity.multiply(&inc(2.0), &fmul), Bound::NegativeInfinity);
    assert_eq!(Bound::Infinity.multiply(&inc(-2.0), &fmul), Bound::NegativeInfinity);
    assert_eq!(inc(-2.0).multiply(&Bound::Infinity, &fmul), Bound::NegativeInfinity);
    assert_eq!(Bound::NegativeInfinity.multiply(&Bound::NegativeInfinity, &fmul), Bound::Infinity);
    assert_eq!(inc(6.0).divide(&inc(3.0), &fdiv), inc(2.0));
    assert_eq!(Bound::NegativeInfinity.divide(&inc(-3.0), &fdiv), Bound::NegativeInfinity);
    assert_eq!(Bound::Infinity.divide(&inc(-3.0), &fdiv), Bound::NegativeInfinity);
    assert_eq!(inc(-1.0).divide(&Bound::Infinity, &fdiv), Bound::NegativeInfinity);
    assert_eq!(inc(1.0).divide(&Bound::Infinity, &fdiv), Bound::Infinity);
}

#[test]
fn unwrap_gives_the_number() {
    assert_eq!(inc(2.5).unwrap(), b(2.5));
    assert_eq!(exc(-1.0).unwrap(), b(-1.0));
}

#[test]
fn intersects_cases() {
    let u = Domain::Unknown;
    let r = Domain::Removed;
    assert!(!r.intersects(&u));
    assert!(u.intersects(&r));
    assert!(Domain::String.intersects(&u));
    assert!(Domain::String.intersects(&Domain::String));
    assert!(!Domain::Record.intersects(&Domain::Record));
    assert!(!Domain::String.intersects(&Domain::Record));
    assert!(num(inc(0.0), inc(5.0)).intersects(&num(inc(5.0), inc(9.0))));
    assert!(!num(inc(0.0), exc(5.0)).intersects(&num(inc(5.0), inc(9.0))));
    assert!(!num(inc(0.0), inc(4.0)).intersects(&num(inc(5.0), inc(9.0))));
    assert!(num(Bound::NegativeInfinity, Bound::Infinity).intersects(&num(inc(5.0), inc(9.0))));
    assert!(!num(inc(1.0), inc(2.0)).intersects(&Domain::String));
}

#[test]
fn intersects_is_symmetric_without_removed() {
    let ds = [
        Domain::Unknown,
        Domain::String,
        Domain::Record,
        Domain::MultiType,
        num(inc(0.0), inc(3.0)),
        num(exc(3.0), Bound::Infinity),
        num(Bound::NegativeInfinity, inc(-1.0)),
    ];
    for d in ds.iter() {
        for e in ds.iter() {
            assert_eq!(d.intersects(e), e.intersects(d));
        }
    }
}

#[test]
fn merge_cases() {
    let mut d = Domain::Unknown;
    assert!(d.merge(&Domain::String));
    assert_eq!(d, Domain::String);
    assert!(!d.merge(&Domain::Unknown));
    assert_eq!(d, Domain::String);
    assert!(!d.merge(&Domain::String));
    assert!(d.merge(&Domain::Record));
    assert_eq!(d, Domain::MultiType);
    assert!(d.merge(&Domain::Removed));
    assert_eq!(d, Domain::Removed);
    assert!(!d.merge(&Domain::String));
    assert_eq!(d, Domain::Removed);

    let mut n = num(Bound::NegativeInfinity, Bound::Infinity);
    assert!(n.merge(&num(inc(1.0), Bound::Infinity)));
    assert_eq!(n, num(inc(1.0), Bound::Infinity));
    assert!(n.merge(&num(Bound::NegativeInfinity, exc(10.0))));
    assert_eq!(n, num(inc(1.0), exc(10.0)));
    assert!(!n.merge(&num(inc(0.0), inc(20.0))));
    assert_eq!(n, num(inc(1.0), exc(10.0)));
    assert!(n.merge(&Domain::String));
    assert_eq!(n, Domain::MultiType);
}

#[test]
fn merge_unknown_and_idempotence() {
    let ds = [
        Domain::Unknown,
        Domain::String,
        Domain::Record,
        Domain::MultiType,
        Domain::Removed,
        num(inc(0.0), inc(3.0)),
        num(exc(3.0), Bound::Infinity),
    ];
    for d in ds.iter() {
        let mut x = *d;
        assert!(!x.merge(&Domain::Unknown));
        assert_eq!(x, *d);
        let mut u = Domain::Unknown;
        u.merge(d);
        assert_eq!(u, *d);
        let mut y = *d;
        assert!(!y.merge(d));
        assert_eq!(y, *d);
        for o in ds.iter() {
            let mut once = *d;
            once.merge(o);
            let mut twice = once;
            assert!(!twice.merge(o));
            assert_eq!(twice, once);
        }
    }
}

#[test]
fn domain_arithmetic() {
    let a = num(inc(1.0), inc(2.0));
    let c = num(inc(10.0), inc(20.0));
    assert_eq!(add_domain(&a, &c, &fadd), num(inc(11.0), inc(22.0)));
    assert_eq!(subtract_domain(&c, &a, &fsub), num(inc(9.0), inc(18.0)));
    assert_eq!(multiply_domain(&a, &c, &fmul), num(inc(10.0), inc(40.0)));
    assert_eq!(divide_domain(&c, &a, &fdiv), num(inc(10.0), inc(10.0)));
    // unknown yields the other side
    assert_eq!(add_domain(&Domain::Unknown, &a, &fadd), a);
    assert_eq!(subtract_domain(&a, &Domain::Unknown, &fsub), a);
    assert_eq!(multiply_domain(&Domain::Unknown, &Domain::String, &fmul), Domain::String);
    assert_eq!(divide_domain(&Domain::Record, &Domain::Unknown, &fdiv), Domain::Record);
    // ends are put in order
    let neg = num(inc(-3.0), inc(-1.0));
    assert_eq!(multiply_domain(&neg, &a, &fmul), num(inc(-3.0), inc(-2.0)));
    assert_eq!(multiply_domain(&a, &num(inc(-3.0), inc(-4.0)), &fmul), num(inc(-8.0), inc(-3.0)));
    // two plus infinities: the first becomes an included zero
    let all = num(Bound::NegativeInfinity, Bound::Infinity);
    assert_eq!(multiply_domain(&all, &all, &fmul), num(inc(0.0), Bound::Infinity));
    assert_eq!(
        add_domain(&all, &a, &fadd),
        num(Bound::NegativeInfinity, Bound::Infinity)
    );
    assert_eq!(
        subtract_domain(&a, &all, &fsub),
        num(Bound::Infinity, Bound::NegativeInfinity)
    );
}
