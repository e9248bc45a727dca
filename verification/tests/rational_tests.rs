use calc_core::rational::Rational;

#[test]
fn reduce() {
    assert_eq!(Rational::new(10, -2).reduce(), Rational::new(-5, 1));
    assert_eq!(Rational::new(-2, -10).reduce(), Rational::new(1, 5));
    assert_eq!(Rational::new(3, 2).reduce(), Rational::new(3, 2));
}

#[test]
fn reduce_is_idempotent() {
    let samples = vec![
        Rational::new(10, -2),
        Rational::new(-2, -10),
        Rational::new(3, 2),
        Rational::new(0, 7),
        Rational::new(5, 0),
        Rational::new(0, 0),
        Rational::new(36, 48),
    ];
    for r in samples {
        let once = r.reduce();
        let twice = once.reduce();
        // The representation itself is unchanged, not merely the value.
        assert_eq!(twice.num(), once.num());
        assert_eq!(twice.den(), once.den());
    }
}

#[test]
fn equality_compares_values() {
    assert_eq!(Rational::new(1, 2), Rational::new(2, 4));
    assert_ne!(Rational::new(1, 2), Rational::new(2, 3));
    assert_eq!(Rational::new(1, 0), Rational::new(7, 0));
    assert_ne!(Rational::new(0, 1), Rational::new(1, 0));
}

#[test]
fn arithmetic_exact() {
    let half = Rational::new(1, 2);
    let third = Rational::new(1, 3);
    assert_eq!(half.add(third), Rational::new(5, 6));
    assert_eq!(half.sub(third), Rational::new(1, 6));
    assert_eq!(half.mul(third), Rational::new(1, 6));
    assert_eq!(half.div(third), Rational::new(3, 2));
    assert_eq!(half.neg(), Rational::new(-1, 2));
    assert_eq!(Rational::new(-3, 4).abs(), Rational::new(3, 4));
    assert_eq!(Rational::new(7, 1).rem(Rational::new(3, 1)), Rational::new(1, 1));
    assert_eq!(Rational::new(7, 2).rem(Rational::new(1, 1)), Rational::new(1, 2));
    assert_eq!(Rational::new(-7, 1).rem(Rational::new(3, 1)), Rational::new(-1, 1));
}

#[test]
fn arithmetic_results_are_reduced() {
    // Sums, differences, products and quotients of reduced operands come out
    // reduced: positive denominator, lowest terms.
    let a = Rational::new(3, 4);
    let b = Rational::new(5, 6);
    assert_eq!((a.add(b).num(), a.add(b).den()), (19, 12));
    assert_eq!((a.mul(b).num(), a.mul(b).den()), (5, 8));
    assert_eq!((a.div(b).num(), a.div(b).den()), (9, 10));
    let s = Rational::new(1, 6).add(Rational::new(1, 6));
    assert_eq!((s.num(), s.den()), (1, 3));
    let m = Rational::new(2, 4).mul(Rational::new(2, 3));
    assert_eq!((m.num(), m.den()), (1, 3));
}

#[test]
fn com_den_rescales() {
    let mut a = Rational::new(1, 2);
    let b = a.com_den(Rational::new(1, 3));
    assert_eq!(a, Rational::new(3, 6));
    assert_eq!(b, Rational::new(2, 6));
}

#[test]
fn powers_and_roots() {
    let two = Rational::new(2, 1);
    assert_eq!(two.pow(Rational::new(10, 1)), Rational::new(1024, 1));
    assert_eq!(two.pow(Rational::new(-2, 1)), Rational::new(1, 4));
    assert_eq!(Rational::new(2, 3).pow(Rational::new(2, 1)), Rational::new(4, 9));
    assert_eq!(Rational::new(4, 1).sqrt(), Rational::new(2, 1));
    assert_eq!(Rational::new(9, 16).sqrt(), Rational::new(3, 4));
    assert_eq!(Rational::new(8, 1).pow(Rational::new(1, 3)), Rational::new(2, 1));
    assert_eq!(Rational::new(4, 9).pow(Rational::new(3, 2)), Rational::new(8, 27));
    // No exact root exists: the undefined sentinel, displayed as such.
    assert_eq!(two.sqrt().to_display(), "undefined");
    assert_eq!(Rational::new(-4, 1).sqrt().to_display(), "undefined");
}

#[test]
fn logarithms() {
    let eight = Rational::new(8, 1);
    assert_eq!(eight.log(Rational::new(2, 1)), Rational::new(3, 1));
    assert_eq!(Rational::new(1, 2).log(Rational::new(2, 1)), Rational::new(-1, 1));
    assert_eq!(Rational::new(1, 1).log(Rational::new(10, 1)), Rational::new(0, 1));
    // Not an exact power: undefined.
    assert_eq!(Rational::new(3, 1).log(Rational::new(2, 1)).to_display(), "undefined");
    // A fractional base is not supported exactly: undefined.
    assert_eq!(eight.log(Rational::new(1, 2)).to_display(), "undefined");
}

#[test]
fn display_forms() {
    assert_eq!(Rational::new(5, 1).to_display(), "5");
    assert_eq!(Rational::new(-5, 1).to_display(), "-5");
    assert_eq!(Rational::new(3, 2).to_display(), "3/2");
    assert_eq!(Rational::new(10, -4).to_display(), "-5/2");
    assert_eq!(Rational::new(0, 3).to_display(), "0");
    assert_eq!(Rational::new(1234567890123, 1).to_display(), "1234567890123");
}

#[test]
fn division_by_zero_is_undefined_not_fatal() {
    let zero = Rational::zero();
    let one = Rational::one();
    let u = one.div(zero);
    assert_eq!(u.to_display(), "undefined");
    // The sentinel stays computable.
    assert_eq!(u.add(one).to_display(), "undefined");
    assert_eq!(u.mul(Rational::new(7, 3)).to_display(), "undefined");
    assert_eq!(one.rem(zero).to_display(), "undefined");
}

#[test]
fn overflow_becomes_undefined() {
    let big = Rational::new(0x7fff_ffff_ffff_ffff, 1);
    assert_eq!(big.mul(big).to_display(), "undefined");
    assert_eq!(big.add(Rational::new(1, 1)).to_display(), "undefined");
}
