//! Exact fractions over 64-bit integers.
//!
//! A `Rational` holds a numerator `p` and a denominator `q`.  A denominator of
//! zero is the "undefined" sentinel: it is a value like any other (division by
//! zero produces it, and every operation propagates it), never a fault.  Every
//! arithmetic operation normalizes its result: the denominator is positive and
//! coprime with the numerator, or the result is the undefined sentinel.  A
//! result whose reduced form does not fit the 64-bit fields also becomes the
//! undefined sentinel.
use vstd::prelude::*;

verus! {

use crate::arith::{
    nabs,
    spec_gcd,
    gcd_u128,
    lemma_gcd_divides,
    lemma_gcd_quotients_coprime,
    lemma_divides_to_div,
};
use vstd::arithmetic::mul::lemma_mul_is_commutative;
use vstd::arithmetic::div_mod::lemma_div_multiples_vanish;

/// The mathematical value of a `Rational`: an unbounded fraction.
pub struct Rat {
    pub p: int,
    pub q: int,
}

/// Bounds of the 64-bit fields; the most negative value is left out so that
/// every representable numerator can also be negated.
pub open spec fn i64_fits(x: int) -> bool {
    -0x7fff_ffff_ffff_ffff <= x && x <= 0x7fff_ffff_ffff_ffff
}

/// Bounds of the 128-bit intermediate values, symmetric for the same reason.
pub open spec fn i128_fits(x: int) -> bool {
    -0x7fff_ffff_ffff_ffff_ffff_ffff_ffff_ffff <= x && x <= 0x7fff_ffff_ffff_ffff_ffff_ffff_ffff_ffff
}

/// The undefined sentinel in its normal form.
pub open spec fn rat_undef() -> Rat {
    Rat { p: 0, q: 0 }
}

/// Lowest-terms form: the sign moves to the numerator and both parts are
/// divided by their gcd.  A fraction with denominator zero keeps it, with the
/// numerator collapsed to its sign.
pub open spec fn rat_reduce(p: int, q: int) -> Rat {
    let sp: int = if q < 0 {
        -p
    } else {
        p
    };
    let sq: int = if q < 0 {
        -q
    } else {
        q
    };
    let g = spec_gcd(nabs(sp), nabs(sq)) as int;
    if g == 0 {
        rat_undef()
    } else {
        Rat { p: sp / g, q: sq / g }
    }
}

/// `rat_reduce`, collapsed to the undefined sentinel when the reduced parts
/// do not fit the 64-bit fields.
pub open spec fn rat_norm(p: int, q: int) -> Rat {
    let r = rat_reduce(p, q);
    if i64_fits(r.p) && i64_fits(r.q) {
        r
    } else {
        rat_undef()
    }
}

/// A defined fraction in lowest terms with a positive denominator.
pub open spec fn rat_is_reduced(r: Rat) -> bool {
    r.q > 0 && spec_gcd(nabs(r.p), r.q as nat) == 1 && i64_fits(r.p) && i64_fits(r.q)
}

/// What every operation returns: a reduced fraction or the normal form of the
/// undefined sentinel.
pub open spec fn rat_is_norm(r: Rat) -> bool {
    rat_is_reduced(r) || (r.q == 0 && -1 <= r.p <= 1)
}

/// Exact sum: common denominator `q1*q2`, then normalized.
pub open spec fn rat_add(a: Rat, b: Rat) -> Rat {
    if i128_fits(a.p * b.q + b.p * a.q) {
        rat_norm(a.p * b.q + b.p * a.q, a.q * b.q)
    } else {
        rat_undef()
    }
}

/// Exact difference.
pub open spec fn rat_sub(a: Rat, b: Rat) -> Rat {
    if i128_fits(a.p * b.q - b.p * a.q) {
        rat_norm(a.p * b.q - b.p * a.q, a.q * b.q)
    } else {
        rat_undef()
    }
}

/// Exact product.
pub open spec fn rat_mul(a: Rat, b: Rat) -> Rat {
    rat_norm(a.p * b.p, a.q * b.q)
}

/// Exact quotient: multiplication by the reciprocal.  Division by zero gives
/// a zero denominator, hence the undefined sentinel.
pub open spec fn rat_div(a: Rat, b: Rat) -> Rat {
    rat_norm(a.p * b.q, a.q * b.p)
}

/// Negation keeps the fraction unreduced, as the sign flip cannot change the
/// gcd.
pub open spec fn rat_neg(a: Rat) -> Rat {
    if i64_fits(-a.p) {
        Rat { p: -a.p, q: a.q }
    } else {
        rat_undef()
    }
}

/// Magnitude of both parts, normalized.
pub open spec fn rat_abs(a: Rat) -> Rat {
    rat_norm(nabs(a.p) as int, nabs(a.q) as int)
}

/// Truncated remainder: the result keeps the dividend's sign and its
/// magnitude is `|a.p*b.q| mod |b.p*a.q|` over `|a.q*b.q|`, which is
/// `a - b * trunc(a / b)`.
pub open spec fn rat_rem(a: Rat, b: Rat) -> Rat {
    if a.q == 0 || b.q == 0 || b.p == 0 {
        rat_undef()
    } else {
        let m = (nabs(a.p * b.q) % nabs(b.p * a.q)) as int;
        let n: int = if (a.p < 0) == (a.q < 0) {
            m
        } else {
            -m
        };
        rat_norm(n, nabs(a.q * b.q) as int)
    }
}

/// Two fractions name the same value: both are the undefined sentinel, or
/// their cross products agree.
pub open spec fn rat_val_eq(a: Rat, b: Rat) -> bool {
    if a.q == 0 || b.q == 0 {
        a.q == 0 && b.q == 0
    } else {
        a.p * b.q == b.p * a.q
    }
}

/// Exact fraction over 64-bit numerator and denominator.
#[derive(Clone, Copy, Debug, Eq)]
pub struct Rational {
    p: i64,
    q: i64,
}

impl PartialEq for Rational {
    /// Equality compares values, not representations: `2/4` equals `1/2`,
    /// and every undefined fraction equals every other.
    fn eq(&self, other: &Rational) -> (r: bool) {
        proof {
            lemma_mul_i64_fits(self.p as int, other.q as int);
            lemma_mul_i64_fits(other.p as int, self.q as int);
        }
        if self.q == 0 || other.q == 0 {
            self.q == 0 && other.q == 0
        } else {
            (self.p as i128) * (other.q as i128) == (other.p as i128) * (self.q as i128)
        }
    }
}

impl vstd::std_specs::cmp::PartialEqSpecImpl for Rational {
    open spec fn obeys_eq_spec() -> bool {
        true
    }

    open spec fn eq_spec(&self, other: &Rational) -> bool {
        rat_val_eq(self@, other@)
    }
}

impl View for Rational {
    type V = Rat;

    closed spec fn view(&self) -> Rat {
        Rat { p: self.p as int, q: self.q as int }
    }
}

/// Product of two 64-bit values stays within the 128-bit bounds.
proof fn lemma_mul_i64_fits(a: int, b: int)
    requires
        -0x8000_0000_0000_0000 <= a <= 0x7fff_ffff_ffff_ffff,
        -0x8000_0000_0000_0000 <= b <= 0x7fff_ffff_ffff_ffff,
    ensures
        -0x4000_0000_0000_0000_0000_0000_0000_0000 <= a * b
            <= 0x4000_0000_0000_0000_0000_0000_0000_0000,
{
    assert(-0x4000_0000_0000_0000_0000_0000_0000_0000 <= a * b
        <= 0x4000_0000_0000_0000_0000_0000_0000_0000) by (nonlinear_arith)
        requires
            -0x8000_0000_0000_0000 <= a <= 0x7fff_ffff_ffff_ffff,
            -0x8000_0000_0000_0000 <= b <= 0x7fff_ffff_ffff_ffff,
    ;
}

/// Normalizing on 128-bit parts, shared by all the arithmetic operations.
fn reduce128(p: i128, q: i128) -> (r: Rational)
    requires
        i128_fits(p as int),
        i128_fits(q as int),
    ensures
        r@ == rat_norm(p as int, q as int),
{
    let sp: i128 = if q < 0 {
        -p
    } else {
        p
    };
    let sq: i128 = if q < 0 {
        -q
    } else {
        q
    };
    let pm: u128 = if sp < 0 {
        (-sp) as u128
    } else {
        sp as u128
    };
    let qm: u128 = sq as u128;
    proof {
        assert(pm as nat == nabs(sp as int));
        assert(qm as nat == nabs(sq as int));
    }
    let g = gcd_u128(pm, qm);
    if g == 0 {
        return Rational { p: 0, q: 0 };
    }
    let pr = pm / g;
    let qr = qm / g;
    proof {
        let gi = g as int;
        lemma_gcd_divides(pm as nat, qm as nat);
        lemma_divides_to_div(gi, pm as int);
        lemma_divides_to_div(gi, qm as int);
        if sp < 0 {
            // sp == gi * (-(pm / g)), so Euclidean division is exact.
            lemma_mul_is_commutative(gi, pm as int / gi);
            assert(sp as int == gi * (-(pm as int / gi))) by {
                assert(pm as int == gi * (pm as int / gi));
                vstd::arithmetic::mul::lemma_mul_unary_negation(gi, pm as int / gi);
            };
            lemma_div_multiples_vanish(-(pm as int / gi), gi);
        }
        assert(qm as int / gi == qr as int);
        assert(pm as int / gi == pr as int);
    }
    if pr > 0x7fff_ffff_ffff_ffff || qr > 0x7fff_ffff_ffff_ffff {
        return Rational { p: 0, q: 0 };
    }
    let pi: i64 = if sp < 0 {
        -(pr as i64)
    } else {
        pr as i64
    };
    Rational { p: pi, q: qr as i64 }
}

impl Rational {
    /// The raw fraction `a / b`, not reduced.
    pub fn new(a: i64, b: i64) -> (r: Self)
        ensures
            r@ == (Rat { p: a as int, q: b as int }),
    {
        Self { p: a, q: b }
    }

    /// Zero, as `0 / 1`.
    pub fn zero() -> (r: Self)
        ensures
            r@ == (Rat { p: 0, q: 1 }),
    {
        Self { p: 0, q: 1 }
    }

    /// One, as `1 / 1`.
    pub fn one() -> (r: Self)
        ensures
            r@ == (Rat { p: 1, q: 1 }),
    {
        Self { p: 1, q: 1 }
    }

    /// The numerator, as stored.
    pub fn num(&self) -> (r: i64)
        ensures
            r as int == self@.p,
    {
        self.p
    }

    /// The denominator, as stored.
    pub fn den(&self) -> (r: i64)
        ensures
            r as int == self@.q,
    {
        self.q
    }

    /// Lowest terms with a positive denominator; see `rat_norm`.
    pub fn reduce(&self) -> (r: Self)
        ensures
            r@ == rat_norm(self@.p, self@.q),
    {
        reduce128(self.p as i128, self.q as i128)
    }

    /// Exact sum.
    pub fn add(self, other: Self) -> (r: Self)
        ensures
            r@ == rat_add(self@, other@),
    {
        proof {
            lemma_mul_i64_fits(self.p as int, other.q as int);
            lemma_mul_i64_fits(other.p as int, self.q as int);
            lemma_mul_i64_fits(self.q as int, other.q as int);
        }
        let n1 = (self.p as i128) * (other.q as i128);
        let n2 = (other.p as i128) * (self.q as i128);
        let d = (self.q as i128) * (other.q as i128);
        if let Some(n) = n1.checked_add(n2) {
            if n >= -0x7fff_ffff_ffff_ffff_ffff_ffff_ffff_ffff {
                return reduce128(n, d);
            }
        }
        Rational { p: 0, q: 0 }
    }

    /// Exact difference.
    pub fn sub(self, other: Self) -> (r: Self)
        ensures
            r@ == rat_sub(self@, other@),
    {
        proof {
            lemma_mul_i64_fits(self.p as int, other.q as int);
            lemma_mul_i64_fits(other.p as int, self.q as int);
            lemma_mul_i64_fits(self.q as int, other.q as int);
        }
        let n1 = (self.p as i128) * (other.q as i128);
        let n2 = (other.p as i128) * (self.q as i128);
        let d = (self.q as i128) * (other.q as i128);
        if let Some(n) = n1.checked_sub(n2) {
            if n >= -0x7fff_ffff_ffff_ffff_ffff_ffff_ffff_ffff {
                return reduce128(n, d);
            }
        }
        Rational { p: 0, q: 0 }
    }

    /// Exact product.
    pub fn mul(self, other: Self) -> (r: Self)
        ensures
            r@ == rat_mul(self@, other@),
    {
        proof {
            lemma_mul_i64_fits(self.p as int, other.p as int);
            lemma_mul_i64_fits(self.q as int, other.q as int);
        }
        reduce128((self.p as i128) * (other.p as i128), (self.q as i128) * (other.q as i128))
    }

    /// Exact quotient; dividing by zero yields the undefined sentinel.
    pub fn div(self, other: Self) -> (r: Self)
        ensures
            r@ == rat_div(self@, other@),
    {
        proof {
            lemma_mul_i64_fits(self.p as int, other.q as int);
            lemma_mul_i64_fits(self.q as int, other.p as int);
        }
        reduce128((self.p as i128) * (other.q as i128), (self.q as i128) * (other.p as i128))
    }

    /// Negation; the one unrepresentable numerator becomes the undefined
    /// sentinel.
    pub fn neg(self) -> (r: Self)
        ensures
            r@ == rat_neg(self@),
    {
        if self.p >= -0x7fff_ffff_ffff_ffff {
            Rational { p: -self.p, q: self.q }
        } else {
            Rational { p: 0, q: 0 }
        }
    }

    /// Magnitude, normalized.
    pub fn abs(&self) -> (r: Self)
        ensures
            r@ == rat_abs(self@),
    {
        let pm: i128 = if self.p < 0 {
            -(self.p as i128)
        } else {
            self.p as i128
        };
        let qm: i128 = if self.q < 0 {
            -(self.q as i128)
        } else {
            self.q as i128
        };
        reduce128(pm, qm)
    }

    /// Truncated remainder; see `rat_rem`.
    pub fn rem(self, other: Self) -> (r: Self)
        ensures
            r@ == rat_rem(self@, other@),
    {
        if self.q == 0 || other.q == 0 || other.p == 0 {
            return Rational { p: 0, q: 0 };
        }
        proof {
            lemma_mul_i64_fits(self.p as int, other.q as int);
            lemma_mul_i64_fits(other.p as int, self.q as int);
            lemma_mul_i64_fits(self.q as int, other.q as int);
        }
        let n1 = (self.p as i128) * (other.q as i128);
        let n2 = (other.p as i128) * (self.q as i128);
        let d = (self.q as i128) * (other.q as i128);
        let n1m: u128 = if n1 < 0 {
            (-n1) as u128
        } else {
            n1 as u128
        };
        let n2m: u128 = if n2 < 0 {
            (-n2) as u128
        } else {
            n2 as u128
        };
        let dm: u128 = if d < 0 {
            (-d) as u128
        } else {
            d as u128
        };
        proof {
            assert(n2m > 0) by {
                assert(n2 as int == (other.p as int) * (self.q as int));
                assert(n2 != 0) by (nonlinear_arith)
                    requires
                        n2 as int == (other.p as int) * (self.q as int),
                        other.p as int != 0,
                        self.q as int != 0,
                ;
            };
            assert(n1m as nat == nabs(self@.p * other@.q));
            assert(n2m as nat == nabs(other@.p * self@.q));
            assert(dm as nat == nabs(self@.q * other@.q));
        }
        let m = n1m % n2m;
        let neg = (self.p < 0) != (self.q < 0);
        let n: i128 = if neg {
            -(m as i128)
        } else {
            m as i128
        };
        reduce128(n, dm as i128)
    }

    /// Rescales both fractions to their common denominator, the least common
    /// multiple of the two; mirrors `rat_com_den`.
    pub fn com_den(&mut self, other: Rational) -> (r: Rational)
        ensures
            (final(self)@, r@) == rat_com_den(old(self)@, other@),
    {
        if self.q == 0 || other.q == 0 {
            *self = Rational { p: 0, q: 0 };
            return Rational { p: 0, q: 0 };
        }
        let q1m: u128 = if self.q < 0 {
            (-(self.q as i128)) as u128
        } else {
            self.q as u128
        };
        let q2m: u128 = if other.q < 0 {
            (-(other.q as i128)) as u128
        } else {
            other.q as u128
        };
        let g = gcd_u128(q1m, q2m);
        proof {
            assert(q1m as nat == nabs(self@.q));
            assert(q2m as nat == nabs(other@.q));
            crate::arith::lemma_gcd_pos(q1m as nat, q2m as nat);
            let gi = g as int;
            lemma_gcd_divides(q1m as nat, q2m as nat);
            lemma_divides_to_div(gi, q1m as int);
            lemma_divides_to_div(gi, q2m as int);
            if self.q < 0 {
                lemma_mul_is_commutative(gi, q1m as int / gi);
                assert(self@.q == gi * (-(q1m as int / gi))) by {
                    assert(q1m as int == gi * (q1m as int / gi));
                    vstd::arithmetic::mul::lemma_mul_unary_negation(gi, q1m as int / gi);
                };
                lemma_div_multiples_vanish(-(q1m as int / gi), gi);
            }
            if other.q < 0 {
                lemma_mul_is_commutative(gi, q2m as int / gi);
                assert(other@.q == gi * (-(q2m as int / gi))) by {
                    assert(q2m as int == gi * (q2m as int / gi));
                    vstd::arithmetic::mul::lemma_mul_unary_negation(gi, q2m as int / gi);
                };
                lemma_div_multiples_vanish(-(q2m as int / gi), gi);
            }
        }
        let c1: i128 = if self.q < 0 {
            -((q1m / g) as i128)
        } else {
            (q1m / g) as i128
        };
        let c2: i128 = if other.q < 0 {
            -((q2m / g) as i128)
        } else {
            (q2m / g) as i128
        };
        // c1 == self.q / g and c2 == other.q / g, exactly.
        proof {
            lemma_mul_i64_fits(self@.q, c2 as int);
            lemma_mul_i64_fits(self@.p, c2 as int);
            lemma_mul_i64_fits(other@.p, c1 as int);
        }
        let l = (self.q as i128) * c2;
        let pa = (self.p as i128) * c2;
        let pb = (other.p as i128) * c1;
        if l >= -0x7fff_ffff_ffff_ffff && l <= 0x7fff_ffff_ffff_ffff
            && pa >= -0x7fff_ffff_ffff_ffff && pa <= 0x7fff_ffff_ffff_ffff
            && pb >= -0x7fff_ffff_ffff_ffff && pb <= 0x7fff_ffff_ffff_ffff {
            *self = Rational { p: pa as i64, q: l as i64 };
            Rational { p: pb as i64, q: l as i64 }
        } else {
            *self = Rational { p: 0, q: 0 };
            Rational { p: 0, q: 0 }
        }
    }
}

/// Common denominator: both fractions rescaled to `lcm(a.q, b.q)` (signed as
/// the product of the original signs), or both undefined when a denominator
/// is zero or a rescaled part does not fit.
pub open spec fn rat_com_den(a: Rat, b: Rat) -> (Rat, Rat) {
    if a.q == 0 || b.q == 0 {
        (rat_undef(), rat_undef())
    } else {
        let g = spec_gcd(nabs(a.q), nabs(b.q)) as int;
        let c1 = a.q / g;
        let c2 = b.q / g;
        let l = a.q * c2;
        let pa = a.p * c2;
        let pb = b.p * c1;
        if i64_fits(l) && i64_fits(pa) && i64_fits(pb) {
            (Rat { p: pa, q: l }, Rat { p: pb, q: l })
        } else {
            (rat_undef(), rat_undef())
        }
    }
}

/// Normalizing always lands in a normal form, positive denominators come out
/// of defined inputs that fit, and the value is preserved: the result is the
/// same fraction.
pub proof fn lemma_norm_canonical(p: int, q: int)
    ensures
        rat_is_norm(rat_norm(p, q)),
        q != 0 && rat_norm(p, q).q != 0 ==> rat_norm(p, q).q > 0,
        rat_norm(p, q).q != 0 ==> rat_norm(p, q).p * q == p * rat_norm(p, q).q,
{
    let sp: int = if q < 0 {
        -p
    } else {
        p
    };
    let sq: int = if q < 0 {
        -q
    } else {
        q
    };
    let g = spec_gcd(nabs(sp), nabs(sq)) as int;
    if sp == 0 && sq == 0 {
        assert(spec_gcd(0, 0) == 0);
    } else {
        lemma_gcd_quotients_coprime(nabs(sp), nabs(sq));
        let pm = nabs(sp) as int;
        let qm = nabs(sq) as int;
        let a1 = pm / g;
        let b1 = qm / g;
        // Division is exact, so the signed quotients are the signed
        // magnitude quotients.
        assert(pm == g * a1 && qm == g * b1);
        if sp < 0 {
            vstd::arithmetic::mul::lemma_mul_unary_negation(g, a1);
            assert(sp == g * (-a1));
            lemma_div_multiples_vanish(-a1, g);
            assert(sp / g == -a1);
        } else {
            assert(sp / g == a1);
        }
        assert(sq / g == b1);
        let r = rat_reduce(p, q);
        assert(r.p == sp / g && r.q == b1);
        assert(nabs(r.p) == a1 as nat);
        assert(spec_gcd(nabs(r.p), b1 as nat) == 1);
        if q != 0 {
            assert(sq > 0);
            assert(b1 > 0) by {
                if b1 == 0 {
                    assert(sq == g * 0);
                }
            };
            // Value preservation: r.p * q == p * r.q.
            assert((sp / g) * sq == sp * b1) by {
                if sp < 0 {
                    assert((-a1) * (g * b1) == (g * (-a1)) * b1) by (nonlinear_arith);
                } else {
                    assert(a1 * (g * b1) == (g * a1) * b1) by (nonlinear_arith);
                }
            };
            if q < 0 {
                assert(r.p * q == p * r.q) by (nonlinear_arith)
                    requires
                        r.p * (-q) == (-p) * r.q,
                ;
            }
        } else {
            // sq == 0 and sp != 0: the gcd is |sp|, so the numerator
            // collapses to its sign.
            assert(nabs(sq) == 0);
            assert(g == pm);
            assert(b1 == 0) by {
                assert(qm == 0);
                vstd::arithmetic::div_mod::lemma_div_of0(g);
            };
            assert(a1 == 1) by {
                assert(pm == g * a1);
                assert(g == g * 1);
                assert(a1 == 1) by (nonlinear_arith)
                    requires
                        pm == g * a1,
                        g == pm,
                        g > 0,
                ;
            };
        }
    }
}

/// A value already in normal form is a fixed point of normalization.
pub proof fn lemma_norm_fixed_point(r: Rat)
    requires
        rat_is_norm(r),
    ensures
        rat_norm(r.p, r.q) == r,
{
    if rat_is_reduced(r) {
        let g = spec_gcd(nabs(r.p), nabs(r.q)) as int;
        assert(g == 1);
        assert(r.p == g * r.p && r.q == g * r.q);
        lemma_div_multiples_vanish(r.p, 1);
        lemma_div_multiples_vanish(r.q, 1);
        assert(rat_reduce(r.p, r.q) == r);
    } else {
        if r.p == 0 {
            assert(spec_gcd(0, 0) == 0);
            assert(rat_reduce(r.p, r.q) == r);
        } else {
            assert(nabs(r.p) == 1);
            assert(spec_gcd(1, 0) == 1);
            lemma_div_multiples_vanish(r.p, 1);
            vstd::arithmetic::div_mod::lemma_div_of0(1);
            assert(rat_reduce(r.p, r.q) == r);
        }
    }
}

/// Reducing is idempotent: reducing a second time changes nothing.
pub proof fn lemma_reduce_idempotent(p: int, q: int)
    ensures
        rat_norm(rat_norm(p, q).p, rat_norm(p, q).q) == rat_norm(p, q),
{
    lemma_norm_canonical(p, q);
    lemma_norm_fixed_point(rat_norm(p, q));
}

/// Every arithmetic result is in normal form: reduced with a positive
/// denominator whenever it is defined.
pub proof fn lemma_ops_normalized(a: Rat, b: Rat)
    ensures
        rat_is_norm(rat_add(a, b)),
        rat_is_norm(rat_sub(a, b)),
        rat_is_norm(rat_mul(a, b)),
        rat_is_norm(rat_div(a, b)),
        rat_is_norm(rat_rem(a, b)),
        rat_is_norm(rat_abs(a)),
        rat_add(a, b).q != 0 ==> rat_is_reduced(rat_add(a, b)),
        rat_sub(a, b).q != 0 ==> rat_is_reduced(rat_sub(a, b)),
        rat_mul(a, b).q != 0 ==> rat_is_reduced(rat_mul(a, b)),
        rat_div(a, b).q != 0 ==> rat_is_reduced(rat_div(a, b)),
        rat_rem(a, b).q != 0 ==> rat_is_reduced(rat_rem(a, b)),
{
    lemma_norm_canonical(a.p * b.q + b.p * a.q, a.q * b.q);
    lemma_norm_canonical(a.p * b.q - b.p * a.q, a.q * b.q);
    lemma_norm_canonical(a.p * b.p, a.q * b.q);
    lemma_norm_canonical(a.p * b.q, a.q * b.p);
    lemma_norm_canonical(nabs(a.p) as int, nabs(a.q) as int);
    if !(a.q == 0 || b.q == 0 || b.p == 0) {
        let m = (nabs(a.p * b.q) % nabs(b.p * a.q)) as int;
        let n: int = if (a.p < 0) == (a.q < 0) {
            m
        } else {
            -m
        };
        lemma_norm_canonical(n, nabs(a.q * b.q) as int);
    }
}

/// Exact power with a rational exponent.  Both fractions are reduced first.
/// An integer exponent raises numerator and denominator (swapped when the
/// exponent is negative); a fractional exponent `e/k` additionally takes the
/// exact `k`-th root, and is undefined when the value is negative or no exact
/// root exists.  Undefined inputs and unrepresentable intermediates are
/// undefined.
pub open spec fn rat_pow(a: Rat, x: Rat) -> Rat {
    let xr = rat_norm(x.p, x.q);
    let ar = rat_norm(a.p, a.q);
    if xr.q == 0 || ar.q == 0 {
        rat_undef()
    } else {
        let e = nabs(xr.p);
        let bn: int = if xr.p >= 0 {
            ar.p
        } else {
            ar.q
        };
        let bd: int = if xr.p >= 0 {
            ar.q
        } else {
            ar.p
        };
        let pn = vstd::arithmetic::power::pow(bn, e);
        let pd = vstd::arithmetic::power::pow(bd, e);
        if !i128_fits(pn) || !i128_fits(pd) {
            rat_undef()
        } else if xr.q == 1 {
            rat_norm(pn, pd)
        } else if (pn < 0) != (pd < 0) {
            rat_undef()
        } else {
            let k = xr.q as nat;
            if crate::roots::has_kth_root(nabs(pn), k) && crate::roots::has_kth_root(
                nabs(pd),
                k,
            ) {
                rat_norm(
                    crate::roots::kth_root(nabs(pn), k) as int,
                    crate::roots::kth_root(nabs(pd), k) as int,
                )
            } else {
                rat_undef()
            }
        }
    }
}

/// Exact square root: the power `1/2`.
pub open spec fn rat_sqrt(a: Rat) -> Rat {
    rat_pow(a, Rat { p: 1, q: 2 })
}

/// Exact logarithm of `a` in base `base`, both reduced first.  Defined only
/// for an integer base of at least two and a positive value whose numerator
/// and denominator are both exact powers of the base; the result is always a
/// whole number (denominator one).
pub open spec fn rat_log(a: Rat, base: Rat) -> Rat {
    let b = rat_norm(base.p, base.q);
    let v = rat_norm(a.p, a.q);
    if b.q != 1 || b.p < 2 || v.q == 0 || v.p <= 0 {
        rat_undef()
    } else if crate::roots::has_exact_log(b.p as nat, v.p as nat) && crate::roots::has_exact_log(
        b.p as nat,
        v.q as nat,
    ) {
        Rat {
            p: crate::roots::exact_log(b.p as nat, v.p as nat) - crate::roots::exact_log(
                b.p as nat,
                v.q as nat,
            ),
            q: 1,
        }
    } else {
        rat_undef()
    }
}

impl Rational {
    /// Exact rational power; see `rat_pow`.
    pub fn pow(&self, x: Rational) -> (r: Rational)
        ensures
            r@ == rat_pow(self@, x@),
    {
        let xr = x.reduce();
        let ar = self.reduce();
        if xr.q == 0 || ar.q == 0 {
            return Rational { p: 0, q: 0 };
        }
        proof {
            lemma_norm_canonical(x@.p, x@.q);
            lemma_norm_canonical(self@.p, self@.q);
        }
        let e: u64 = if xr.p < 0 {
            (-(xr.p as i128)) as u64
        } else {
            xr.p as u64
        };
        let bn: i64 = if xr.p >= 0 {
            ar.p
        } else {
            ar.q
        };
        let bd: i64 = if xr.p >= 0 {
            ar.q
        } else {
            ar.p
        };
        let bn_m: u128 = if bn < 0 {
            (-(bn as i128)) as u128
        } else {
            bn as u128
        };
        let bd_m: u128 = if bd < 0 {
            (-(bd as i128)) as u128
        } else {
            bd as u128
        };
        proof {
            crate::roots::lemma_pow_magnitude(bn as int, e as nat);
            crate::roots::lemma_pow_magnitude(bd as int, e as nat);
            assert(bn_m as nat == nabs(bn as int));
            assert(bd_m as nat == nabs(bd as int));
        }
        let cap: u128 = 0x7fff_ffff_ffff_ffff_ffff_ffff_ffff_ffff;
        let v1 = match crate::roots::pow_cap(bn_m, e, cap) {
            Some(v) => v,
            None => {
                return Rational { p: 0, q: 0 };
            },
        };
        let v2 = match crate::roots::pow_cap(bd_m, e, cap) {
            Some(v) => v,
            None => {
                return Rational { p: 0, q: 0 };
            },
        };
        let pn: i128 = if bn < 0 && e % 2 == 1 {
            -(v1 as i128)
        } else {
            v1 as i128
        };
        let pd: i128 = if bd < 0 && e % 2 == 1 {
            -(v2 as i128)
        } else {
            v2 as i128
        };
        proof {
            assert(pn as int == vstd::arithmetic::power::pow(bn as int, e as nat));
            assert(pd as int == vstd::arithmetic::power::pow(bd as int, e as nat));
        }
        if xr.q == 1 {
            return reduce128(pn, pd);
        }
        if (pn < 0) != (pd < 0) {
            return Rational { p: 0, q: 0 };
        }
        let k: u64 = xr.q as u64;
        let pn_m: u128 = if pn < 0 {
            (-pn) as u128
        } else {
            pn as u128
        };
        let pd_m: u128 = if pd < 0 {
            (-pd) as u128
        } else {
            pd as u128
        };
        proof {
            assert(pn_m as nat == nabs(pn as int));
            assert(pd_m as nat == nabs(pd as int));
        }
        let rn = match crate::roots::nth_root(pn_m, k) {
            Some(r) => r,
            None => {
                return Rational { p: 0, q: 0 };
            },
        };
        let rd = match crate::roots::nth_root(pd_m, k) {
            Some(r) => r,
            None => {
                return Rational { p: 0, q: 0 };
            },
        };
        reduce128(rn as i128, rd as i128)
    }

    /// Exact square root, the power `1/2`; see `rat_sqrt`.
    pub fn sqrt(&self) -> (r: Rational)
        ensures
            r@ == rat_sqrt(self@),
    {
        self.pow(Rational::new(1, 2))
    }

    /// Exact logarithm in base `x`; see `rat_log`.
    pub fn log(&self, x: Rational) -> (r: Rational)
        ensures
            r@ == rat_log(self@, x@),
    {
        let b = x.reduce();
        let v = self.reduce();
        if b.q != 1 || b.p < 2 || v.q == 0 || v.p <= 0 {
            return Rational { p: 0, q: 0 };
        }
        proof {
            lemma_norm_canonical(self@.p, self@.q);
        }
        let e1 = match crate::roots::ilog_exact(v.p as u64, b.p as u64) {
            Some(e) => e,
            None => {
                return Rational { p: 0, q: 0 };
            },
        };
        let e2 = match crate::roots::ilog_exact(v.q as u64, b.p as u64) {
            Some(e) => e,
            None => {
                return Rational { p: 0, q: 0 };
            },
        };
        Rational { p: (e1 as i64) - (e2 as i64), q: 1 }
    }
}

/// The character of a single decimal digit.
pub open spec fn digit_char(d: nat) -> char {
    if d == 0 {
        '0'
    } else if d == 1 {
        '1'
    } else if d == 2 {
        '2'
    } else if d == 3 {
        '3'
    } else if d == 4 {
        '4'
    } else if d == 5 {
        '5'
    } else if d == 6 {
        '6'
    } else if d == 7 {
        '7'
    } else if d == 8 {
        '8'
    } else {
        '9'
    }
}

/// Decimal digits of a natural number, most significant first.
pub open spec fn dec_digits(n: nat) -> Seq<char>
    decreases n,
{
    if n < 10 {
        seq![digit_char(n)]
    } else {
        dec_digits(n / 10).push(digit_char(n % 10))
    }
}

/// Decimal form of an integer: a minus sign before the digits when negative.
pub open spec fn int_str(n: int) -> Seq<char> {
    if n < 0 {
        seq!['-'] + dec_digits(nabs(n))
    } else {
        dec_digits(n as nat)
    }
}

/// How a fraction prints: reduced first; `"p"` for whole numbers, `"p/q"`
/// otherwise, `"undefined"` for a zero denominator.
pub open spec fn rat_display(r: Rat) -> Seq<char> {
    let c = rat_norm(r.p, r.q);
    if c.q == 0 {
        "undefined"@
    } else if c.q == 1 {
        int_str(c.p)
    } else {
        int_str(c.p) + "/"@ + dec_digits(c.q as nat)
    }
}

/// One digit as a string slice.
fn digit_str(d: u128) -> (s: &'static str)
    requires
        d < 10,
    ensures
        s@ == seq![digit_char(d as nat)],
{
    proof {
        reveal_strlit("0");
        reveal_strlit("1");
        reveal_strlit("2");
        reveal_strlit("3");
        reveal_strlit("4");
        reveal_strlit("5");
        reveal_strlit("6");
        reveal_strlit("7");
        reveal_strlit("8");
        reveal_strlit("9");
    }
    let s = if d == 0 {
        "0"
    } else if d == 1 {
        "1"
    } else if d == 2 {
        "2"
    } else if d == 3 {
        "3"
    } else if d == 4 {
        "4"
    } else if d == 5 {
        "5"
    } else if d == 6 {
        "6"
    } else if d == 7 {
        "7"
    } else if d == 8 {
        "8"
    } else {
        "9"
    };
    proof {
        assert(s@ =~= seq![digit_char(d as nat)]);
    }
    s
}

/// Digits of a digit sequence collected least significant first, read back
/// most significant first.
spec fn chars_rev(ds: Seq<u128>) -> Seq<char> {
    Seq::new(ds.len(), |i: int| digit_char(ds[ds.len() - 1 - i] as nat))
}

/// Decimal form of a natural machine word.
pub fn dec_string(n: u128) -> (s: String)
    ensures
        s@ == dec_digits(n as nat),
{
    let mut ds: Vec<u128> = Vec::new();
    ds.push(n % 10);
    let mut m = n / 10;
    proof {
        if n < 10 {
            assert(dec_digits(n as nat) =~= chars_rev(ds@));
        } else {
            assert(dec_digits(n as nat) == dec_digits(n as nat / 10).push(
                digit_char(n as nat % 10),
            ));
            assert(dec_digits(n as nat) =~= dec_digits(m as nat) + chars_rev(ds@));
        }
    }
    while m > 0
        invariant
            forall|i: int| 0 <= i < ds@.len() ==> ds@[i] < 10,
            m > 0 ==> dec_digits(n as nat) == dec_digits(m as nat) + chars_rev(ds@),
            m == 0 ==> dec_digits(n as nat) == chars_rev(ds@),
        decreases m,
    {
        let ghost prev = ds@;
        let d = m % 10;
        let old_m = m;
        m = m / 10;
        ds.push(d);
        proof {
            assert(chars_rev(ds@) =~= seq![digit_char(d as nat)] + chars_rev(prev));
            if old_m < 10 {
                assert(dec_digits(old_m as nat) == seq![digit_char(old_m as nat)]);
                assert(dec_digits(n as nat) =~= chars_rev(ds@));
            } else {
                assert(dec_digits(old_m as nat) == dec_digits(old_m as nat / 10).push(
                    digit_char(old_m as nat % 10),
                ));
                assert(dec_digits(old_m as nat) + chars_rev(prev) =~= dec_digits(m as nat)
                    + chars_rev(ds@));
            }
        }
    }
    let mut s = String::new();
    let mut i = ds.len();
    while i > 0
        invariant
            i <= ds@.len(),
            forall|j: int| 0 <= j < ds@.len() ==> ds@[j] < 10,
            s@ == chars_rev(ds@).subrange(0, ds@.len() - i),
        decreases i,
    {
        let ghost before = s@;
        i = i - 1;
        s.append(digit_str(ds[i]));
        proof {
            assert(s@ =~= chars_rev(ds@).subrange(0, ds@.len() - i));
        }
    }
    proof {
        assert(chars_rev(ds@).subrange(0, ds@.len() as int) =~= chars_rev(ds@));
    }
    s
}

/// Decimal form of a signed machine word; the one unrepresentable magnitude
/// is left out.
pub fn i64_to_string(v: i64) -> (s: String)
    requires
        i64_fits(v as int),
    ensures
        s@ == int_str(v as int),
{
    if v < 0 {
        let mut s = String::new();
        proof {
            reveal_strlit("-");
        }
        s.append("-");
        let tail = dec_string((-(v as i128)) as u128);
        s.append(tail.as_str());
        proof {
            assert(s@ =~= int_str(v as int));
        }
        s
    } else {
        dec_string(v as u128)
    }
}

impl Rational {
    /// The display form: `"p"`, `"p/q"`, or `"undefined"`; see `rat_display`.
    pub fn to_display(&self) -> (s: String)
        ensures
            s@ == rat_display(self@),
    {
        let c = self.reduce();
        if c.q == 0 {
            "undefined".to_owned()
        } else if c.q == 1 {
            i64_to_string(c.p)
        } else {
            let mut s = i64_to_string(c.p);
            proof {
                reveal_strlit("/");
            }
            s.append("/");
            let tail = dec_string(c.q as u128);
            s.append(tail.as_str());
            proof {
                assert(s@ =~= rat_display(self@));
            }
            s
        }
    }
}

} // verus!
