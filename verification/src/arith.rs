//! Integer facts the fraction type rests on: divisibility, the greatest
//! common divisor, and the lemmas that make `reduce` canonical.
use vstd::prelude::*;

verus! {

use vstd::arithmetic::div_mod::{
    lemma_fundamental_div_mod,
    lemma_div_multiples_vanish,
    lemma_mod_multiples_basic,
};
use vstd::arithmetic::mul::{
    lemma_mul_is_commutative,
    lemma_mul_is_associative,
    lemma_mul_is_distributive_add,
    lemma_mul_is_distributive_sub,
    lemma_mul_inequality,
    lemma_mul_strict_inequality,
};

/// `d` divides `n`.
pub open spec fn divides(d: int, n: int) -> bool {
    exists|k: int| n == #[trigger] (d * k)
}

/// Magnitude of an integer, as a natural number.
pub open spec fn nabs(x: int) -> nat {
    if x < 0 {
        (-x) as nat
    } else {
        x as nat
    }
}

/// Greatest common divisor, by Euclid's algorithm; `spec_gcd(0, 0) == 0`.
pub open spec fn spec_gcd(a: nat, b: nat) -> nat
    decreases b,
{
    if b == 0 {
        a
    } else {
        spec_gcd(b, a % b)
    }
}

/// The gcd divides both of its arguments.
pub proof fn lemma_gcd_divides(a: nat, b: nat)
    ensures
        divides(spec_gcd(a, b) as int, a as int),
        divides(spec_gcd(a, b) as int, b as int),
    decreases b,
{
    let g = spec_gcd(a, b) as int;
    if b == 0 {
        assert(a as int == g * 1);
        assert(b as int == g * 0);
    } else {
        lemma_gcd_divides(b, a % b);
        let k1 = choose|k: int| b as int == #[trigger] (g * k);
        let k2 = choose|k: int| (a % b) as int == #[trigger] (g * k);
        lemma_fundamental_div_mod(a as int, b as int);
        let d = a as int / b as int;
        assert(a as int == (g * k1) * d + g * k2);
        lemma_mul_is_associative(g, k1, d);
        lemma_mul_is_distributive_add(g, k1 * d, k2);
        assert(a as int == g * (k1 * d + k2));
    }
}

/// The gcd of two numbers that are not both zero is positive.
pub proof fn lemma_gcd_pos(a: nat, b: nat)
    ensures
        a > 0 || b > 0 ==> spec_gcd(a, b) > 0,
    decreases b,
{
    if b != 0 {
        lemma_gcd_pos(b, a % b);
    }
}

/// Any common divisor of `a` and `b` divides their gcd.
pub proof fn lemma_gcd_greatest(d: int, a: nat, b: nat)
    requires
        divides(d, a as int),
        divides(d, b as int),
    ensures
        divides(d, spec_gcd(a, b) as int),
    decreases b,
{
    if b != 0 {
        let k1 = choose|k: int| a as int == #[trigger] (d * k);
        let k2 = choose|k: int| b as int == #[trigger] (d * k);
        lemma_fundamental_div_mod(a as int, b as int);
        let q = a as int / b as int;
        assert((a % b) as int == d * k1 - (d * k2) * q);
        lemma_mul_is_associative(d, k2, q);
        lemma_mul_is_distributive_sub(d, k1, k2 * q);
        assert((a % b) as int == d * (k1 - k2 * q));
        lemma_gcd_greatest(d, b, a % b);
    }
}

/// An exact divisor leaves remainder zero, and division recovers the cofactor.
pub proof fn lemma_divides_to_div(d: int, n: int)
    requires
        d > 0,
        divides(d, n),
    ensures
        n % d == 0,
        n == d * (n / d),
{
    let k = choose|k: int| n == #[trigger] (d * k);
    lemma_mul_is_commutative(d, k);
    lemma_mod_multiples_basic(k, d);
    lemma_div_multiples_vanish(k, d);
}

/// A positive divisor of a positive number is no larger than it.
pub proof fn lemma_divides_le(d: int, n: int)
    requires
        d > 0,
        n > 0,
        divides(d, n),
    ensures
        d <= n,
{
    let k = choose|k: int| n == #[trigger] (d * k);
    lemma_mul_is_commutative(d, k);
    if k <= 0 {
        lemma_mul_inequality(k, 0, d);
        assert(k * d <= 0 * d);
        assert(false);
    } else {
        lemma_mul_inequality(1, k, d);
        assert(1 * d <= k * d);
    }
}

/// Dividing both arguments by their gcd leaves coprime quotients.
pub proof fn lemma_gcd_quotients_coprime(a: nat, b: nat)
    requires
        a > 0 || b > 0,
    ensures
        spec_gcd(a, b) > 0,
        a as int % (spec_gcd(a, b) as int) == 0,
        b as int % (spec_gcd(a, b) as int) == 0,
        a as int == spec_gcd(a, b) * (a as int / spec_gcd(a, b) as int),
        b as int == spec_gcd(a, b) * (b as int / spec_gcd(a, b) as int),
        spec_gcd((a as int / spec_gcd(a, b) as int) as nat, (b as int / spec_gcd(a, b) as int) as nat) == 1,
{
    let g = spec_gcd(a, b) as int;
    lemma_gcd_pos(a, b);
    lemma_gcd_divides(a, b);
    lemma_divides_to_div(g, a as int);
    lemma_divides_to_div(g, b as int);
    let a1 = a as int / g;
    let b1 = b as int / g;
    vstd::arithmetic::div_mod::lemma_div_pos_is_pos(a as int, g);
    vstd::arithmetic::div_mod::lemma_div_pos_is_pos(b as int, g);
    let g1 = spec_gcd(a1 as nat, b1 as nat) as int;
    if a > 0 {
        assert(a1 > 0) by {
            if a1 == 0 {
                assert(a as int == g * 0);
            }
        };
    }
    if b > 0 {
        assert(b1 > 0) by {
            if b1 == 0 {
                assert(b as int == g * 0);
            }
        };
    }
    lemma_gcd_pos(a1 as nat, b1 as nat);
    lemma_gcd_divides(a1 as nat, b1 as nat);
    let m1 = choose|k: int| a1 == #[trigger] (g1 * k);
    let m2 = choose|k: int| b1 == #[trigger] (g1 * k);
    assert(a as int == g * (g1 * m1));
    assert(b as int == g * (g1 * m2));
    lemma_mul_is_associative(g, g1, m1);
    lemma_mul_is_associative(g, g1, m2);
    assert(a as int == (g * g1) * m1);
    assert(b as int == (g * g1) * m2);
    lemma_gcd_greatest(g * g1, a, b);
    vstd::arithmetic::mul::lemma_mul_strictly_positive(g, g1);
    lemma_divides_le(g * g1, g);
    assert(g1 == 1) by {
        if g1 >= 2 {
            lemma_mul_strict_inequality(1, g1, g);
            assert(g * 1 < g * g1);
        }
    };
}

/// Euclid's algorithm, on machine words.
pub fn gcd_u128(a: u128, b: u128) -> (g: u128)
    ensures
        g as nat == spec_gcd(a as nat, b as nat),
{
    let mut x = a;
    let mut y = b;
    while y > 0
        invariant
            spec_gcd(x as nat, y as nat) == spec_gcd(a as nat, b as nat),
        decreases y,
    {
        let r = x % y;
        x = y;
        y = r;
    }
    x
}

} // verus!
