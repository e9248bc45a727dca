//! Exact integer powers, roots and logarithms: the machinery behind the
//! fraction type's `pow`, `sqrt` and `log`.  A root or logarithm exists only
//! when it is exact; the searches below find it or show that none exists.
use vstd::prelude::*;

verus! {

use vstd::arithmetic::power::{
    pow,
    lemma0_pow,
    lemma1_pow,
    lemma_pow_positive,
    lemma_pow_adds,
    lemma_pow_increases,
    lemma_pow_strictly_increases,
};
use vstd::arithmetic::power2::{pow2, lemma2_to64};
use vstd::arithmetic::mul::{
    lemma_mul_inequality,
    lemma_mul_strict_inequality,
    lemma_mul_nonnegative,
    lemma_mul_is_commutative,
};

/// A power of a nonnegative base is nonnegative.
pub proof fn lemma_pow_nonneg(b: int, e: nat)
    requires
        0 <= b,
    ensures
        0 <= pow(b, e),
    decreases e,
{
    reveal(pow);
    if e > 0 {
        lemma_pow_nonneg(b, (e - 1) as nat);
        lemma_mul_nonnegative(b, pow(b, (e - 1) as nat));
    }
}

/// Powers are monotone in the base.
pub proof fn lemma_pow_base_le(a: int, b: int, e: nat)
    requires
        0 <= a <= b,
    ensures
        pow(a, e) <= pow(b, e),
    decreases e,
{
    reveal(pow);
    if e > 0 {
        lemma_pow_base_le(a, b, (e - 1) as nat);
        lemma_pow_nonneg(a, (e - 1) as nat);
        lemma_pow_nonneg(b, (e - 1) as nat);
        assert(a * pow(a, (e - 1) as nat) <= b * pow(b, (e - 1) as nat)) by (nonlinear_arith)
            requires
                0 <= a <= b,
                0 <= pow(a, (e - 1) as nat) <= pow(b, (e - 1) as nat),
        ;
    }
}

/// Powers with a positive exponent are strictly monotone in the base.
pub proof fn lemma_pow_base_lt(a: int, b: int, e: nat)
    requires
        0 <= a < b,
        1 <= e,
    ensures
        pow(a, e) < pow(b, e),
    decreases e,
{
    reveal(pow);
    if e == 1 {
        assert(pow(a, 1) == a * pow(a, 0));
        assert(pow(b, 1) == b * pow(b, 0));
    } else {
        lemma_pow_base_lt(a, b, (e - 1) as nat);
        lemma_pow_nonneg(a, (e - 1) as nat);
        lemma_pow_positive(b, (e - 1) as nat);
        assert(a * pow(a, (e - 1) as nat) < b * pow(b, (e - 1) as nat)) by (nonlinear_arith)
            requires
                0 <= a < b,
                0 <= pow(a, (e - 1) as nat),
                0 < pow(b, (e - 1) as nat),
                pow(a, (e - 1) as nat) < pow(b, (e - 1) as nat),
        ;
    }
}

/// The magnitude of a power is the power of the magnitude, and the sign
/// follows the base's sign and the exponent's parity.
pub proof fn lemma_pow_magnitude(b: int, e: nat)
    ensures
        pow(crate::arith::nabs(b) as int, e) == crate::arith::nabs(pow(b, e)) as int,
        pow(b, e) < 0 <==> (b < 0 && e % 2 == 1),
        pow(b, e) == 0 <==> (b == 0 && e > 0),
    decreases e,
{
    reveal(pow);
    if e != 0 {
        lemma_pow_magnitude(b, (e - 1) as nat);
        let x = pow(b, (e - 1) as nat);
        let bm = crate::arith::nabs(b) as int;
        let xm = crate::arith::nabs(x) as int;
        assert(pow(bm, e) == bm * pow(bm, (e - 1) as nat));
        assert(pow(b, e) == b * x);
        assert(b * x == (if (b < 0) == (x < 0) {
            bm * xm
        } else {
            -(bm * xm)
        }) && bm * xm >= 0 && (bm * xm == 0 <==> (b == 0 || x == 0))) by (nonlinear_arith)
            requires
                b >= 0 ==> bm == b,
                b < 0 ==> bm == -b,
                x >= 0 ==> xm == x,
                x < 0 ==> xm == -x,
        ;
    }
}

/// A number has at most one nonnegative `k`-th root.
pub proof fn lemma_root_unique(k: nat, r1: nat, r2: nat)
    requires
        1 <= k,
        pow(r1 as int, k) == pow(r2 as int, k),
    ensures
        r1 == r2,
{
    if r1 < r2 {
        lemma_pow_base_lt(r1 as int, r2 as int, k);
    }
    if r2 < r1 {
        lemma_pow_base_lt(r2 as int, r1 as int, k);
    }
}

/// `r` is the exact `k`-th root of `n`.
pub open spec fn is_kth_root(n: nat, k: nat, r: nat) -> bool {
    pow(r as int, k) == n
}

/// `n` has an exact `k`-th root.
pub open spec fn has_kth_root(n: nat, k: nat) -> bool {
    exists|r: nat| is_kth_root(n, k, r)
}

/// The exact `k`-th root of `n`, where one exists.
pub open spec fn kth_root(n: nat, k: nat) -> nat {
    choose|r: nat| is_kth_root(n, k, r)
}

/// A found root is the root.
proof fn lemma_root_found(n: nat, k: nat, r: nat)
    requires
        1 <= k,
        is_kth_root(n, k, r),
    ensures
        has_kth_root(n, k),
        kth_root(n, k) == r,
{
    let r2 = kth_root(n, k);
    assert(is_kth_root(n, k, r2));
    lemma_root_unique(k, r, r2);
}

/// When the power at `lo` falls short and the power at `lo + 1` overshoots,
/// no exact root exists.
proof fn lemma_no_root_between(n: nat, k: nat, lo: nat)
    requires
        1 <= k,
        pow(lo as int, k) < n,
        pow((lo + 1) as int, k) > n,
    ensures
        !has_kth_root(n, k),
{
    if has_kth_root(n, k) {
        let r = choose|r: nat| is_kth_root(n, k, r);
        if r <= lo {
            lemma_pow_base_le(r as int, lo as int, k);
        } else {
            lemma_pow_base_le((lo + 1) as int, r as int, k);
        }
    }
}

/// `b` to the `k`, stopped early once it exceeds `cap`.
pub fn pow_cap(b: u128, k: u64, cap: u128) -> (res: Option<u128>)
    ensures
        match res {
            Some(v) => v as int == pow(b as int, k as nat) && v <= cap,
            None => pow(b as int, k as nat) > cap,
        },
{
    if k == 0 {
        proof {
            reveal(pow);
        }
        if cap >= 1 {
            return Some(1);
        } else {
            return None;
        }
    }
    if b == 0 {
        proof {
            lemma0_pow(k as nat);
        }
        return Some(0);
    }
    if b == 1 {
        proof {
            lemma1_pow(k as nat);
        }
        if cap >= 1 {
            return Some(1);
        } else {
            return None;
        }
    }
    if cap == 0 {
        proof {
            reveal(pow);
            lemma_pow_increases(b as nat, 1, k as nat);
            assert(pow(b as int, 1) == b as int * pow(b as int, 0));
        }
        return None;
    }
    let mut acc: u128 = 1;
    let mut j: u64 = 0;
    proof {
        reveal(pow);
    }
    while j < k
        invariant
            2 <= b,
            1 <= cap,
            j <= k,
            acc as int == pow(b as int, j as nat),
            acc <= cap,
        decreases k - j,
    {
        proof {
            reveal(pow);
            assert(pow(b as int, (j + 1) as nat) == b as int * pow(b as int, j as nat));
            lemma_mul_is_commutative(b as int, acc as int);
        }
        let next = acc.checked_mul(b);
        if let Some(v) = next {
            if v <= cap {
                acc = v;
                j = j + 1;
            } else {
                proof {
                    lemma_pow_increases(b as nat, (j + 1) as nat, k as nat);
                }
                return None;
            }
        } else {
            proof {
                lemma_pow_increases(b as nat, (j + 1) as nat, k as nat);
            }
            return None;
        }
    }
    Some(acc)
}

/// The exact `k`-th root of `n`, or `None` when `n` is no `k`-th power,
/// by binary search.
pub fn nth_root(n: u128, k: u64) -> (res: Option<u128>)
    requires
        1 <= k,
    ensures
        match res {
            Some(r) => is_kth_root(n as nat, k as nat, r as nat) && r as nat == kth_root(
                n as nat,
                k as nat,
            ) && r <= n,
            None => !has_kth_root(n as nat, k as nat),
        },
{
    proof {
        reveal(pow);
    }
    if k == 1 {
        proof {
            assert(pow(n as int, 1) == n as int * pow(n as int, 0));
            lemma_root_found(n as nat, 1, n as nat);
        }
        return Some(n);
    }
    if n == 0 {
        proof {
            lemma0_pow(k as nat);
            lemma_root_found(0, k as nat, 0);
        }
        return Some(0);
    }
    if n == 1 {
        proof {
            lemma1_pow(k as nat);
            lemma_root_found(1, k as nat, 1);
        }
        return Some(1);
    }
    let mut lo: u128 = 1;
    let mut hi: u128 = n;
    proof {
        lemma1_pow(k as nat);
        lemma_pow_strictly_increases(n as nat, 1, k as nat);
        assert(pow(n as int, 1) == n as int * pow(n as int, 0));
    }
    while hi - lo > 1
        invariant
            2 <= k,
            2 <= n,
            1 <= lo < hi <= n,
            pow(lo as int, k as nat) <= n,
            pow(hi as int, k as nat) > n,
        decreases hi - lo,
    {
        let mid = lo + (hi - lo) / 2;
        match pow_cap(mid, k, n) {
            Some(_) => {
                lo = mid;
            },
            None => {
                hi = mid;
            },
        }
    }
    match pow_cap(lo, k, n) {
        Some(v) => {
            if v == n {
                proof {
                    lemma_root_found(n as nat, k as nat, lo as nat);
                }
                Some(lo)
            } else {
                proof {
                    lemma_no_root_between(n as nat, k as nat, lo as nat);
                }
                None
            }
        },
        None => {
            proof {
                assert(false);
            }
            None
        },
    }
}

/// `e` is the exact logarithm of `n` in base `b`.
pub open spec fn is_exact_log(b: nat, n: nat, e: nat) -> bool {
    pow(b as int, e) == n
}

/// `n` is an exact power of `b`.
pub open spec fn has_exact_log(b: nat, n: nat) -> bool {
    exists|e: nat| is_exact_log(b, n, e)
}

/// The exact logarithm of `n` in base `b`, where one exists.
pub open spec fn exact_log(b: nat, n: nat) -> nat {
    choose|e: nat| is_exact_log(b, n, e)
}

/// A found logarithm is the logarithm.
proof fn lemma_log_found(b: nat, n: nat, e: nat)
    requires
        2 <= b,
        is_exact_log(b, n, e),
    ensures
        has_exact_log(b, n),
        exact_log(b, n) == e,
{
    let e2 = exact_log(b, n);
    assert(is_exact_log(b, n, e2));
    if e < e2 {
        lemma_pow_strictly_increases(b, e, e2);
    }
    if e2 < e {
        lemma_pow_strictly_increases(b, e2, e);
    }
}

/// Once the base has been divided out `e` times and a cofactor at least two
/// remains that the base does not divide, `n` is no exact power of `b`.
proof fn lemma_no_exact_log(b: nat, n: nat, e: nat, cof: nat)
    requires
        2 <= b,
        2 <= cof,
        cof % b != 0,
        n == cof * pow(b as int, e),
    ensures
        !has_exact_log(b, n),
{
    lemma_pow_positive(b as int, e);
    if has_exact_log(b, n) {
        let e2 = choose|x: nat| is_exact_log(b, n, x);
        if e2 > e {
            lemma_pow_adds(b as int, e, (e2 - e) as nat);
            assert(pow(b as int, e) * pow(b as int, (e2 - e) as nat) == cof * pow(b as int, e));
            assert(pow(b as int, (e2 - e) as nat) == cof) by (nonlinear_arith)
                requires
                    pow(b as int, e) * pow(b as int, (e2 - e) as nat) == cof * pow(b as int, e),
                    pow(b as int, e) > 0,
            ;
            reveal(pow);
            assert(pow(b as int, (e2 - e) as nat) == b as int * pow(
                b as int,
                (e2 - e - 1) as nat,
            ));
            let c2 = pow(b as int, (e2 - e - 1) as nat);
            lemma_pow_nonneg(b as int, (e2 - e - 1) as nat);
            lemma_mul_is_commutative(b as int, c2);
            vstd::arithmetic::div_mod::lemma_mod_multiples_basic(c2, b as int);
            assert(cof % b == 0);
        } else {
            lemma_pow_increases(b, e2, e);
            assert(n >= 2 * pow(b as int, e)) by (nonlinear_arith)
                requires
                    n == cof * pow(b as int, e),
                    cof >= 2,
                    pow(b as int, e) > 0,
            ;
        }
    }
}

/// The exact base-`b` logarithm of `n`, or `None` when `n` is no exact
/// power, by dividing the base out.
pub fn ilog_exact(n: u64, b: u64) -> (res: Option<u64>)
    requires
        2 <= b,
        1 <= n,
    ensures
        match res {
            Some(e) => is_exact_log(b as nat, n as nat, e as nat) && e as nat == exact_log(
                b as nat,
                n as nat,
            ) && e <= 63,
            None => !has_exact_log(b as nat, n as nat),
        },
{
    let mut cur = n;
    let mut e: u64 = 0;
    proof {
        reveal(pow);
    }
    while cur % b == 0
        invariant
            2 <= b,
            1 <= cur,
            e <= 63,
            n as int == cur as int * pow(b as int, e as nat),
        decreases cur,
    {
        let prev = cur;
        cur = cur / b;
        proof {
            vstd::arithmetic::div_mod::lemma_fundamental_div_mod(prev as int, b as int);
            assert(prev as int == cur as int * b as int) by {
                lemma_mul_is_commutative(b as int, cur as int);
            };
            assert(cur >= 1) by {
                if prev < b {
                    vstd::arithmetic::div_mod::lemma_small_mod(prev as nat, b as nat);
                } else {
                    vstd::arithmetic::div_mod::lemma_div_non_zero(prev as int, b as int);
                }
            };
            assert(cur < prev) by {
                vstd::arithmetic::div_mod::lemma_div_is_strictly_smaller(prev as int, b as int);
            };
            reveal(pow);
            assert(pow(b as int, (e + 1) as nat) == b as int * pow(b as int, e as nat));
            assert(n as int == cur as int * pow(b as int, (e + 1) as nat)) by (nonlinear_arith)
                requires
                    n as int == (cur as int * b as int) * pow(b as int, e as nat),
                    pow(b as int, (e + 1) as nat) == b as int * pow(b as int, e as nat),
            ;
            // The exponent stays small: b^(e+1) divides n < 2^64.
            lemma_pow_positive(b as int, (e + 1) as nat);
            assert(pow(b as int, (e + 1) as nat) <= n as int) by (nonlinear_arith)
                requires
                    n as int == cur as int * pow(b as int, (e + 1) as nat),
                    cur as int >= 1,
                    pow(b as int, (e + 1) as nat) > 0,
            ;
            if e + 1 > 63 {
                lemma2_to64();
                lemma_pow_increases(2, 64, (e + 1) as nat);
                lemma_pow_base_le(2, b as int, (e + 1) as nat);
                lemma_pow_nonneg(2, 64);
                assert(pow(2, 64) == pow2(64));
                assert(false);
            }
        }
        e = e + 1;
    }
    if cur == 1 {
        proof {
            lemma_log_found(b as nat, n as nat, e as nat);
        }
        Some(e)
    } else {
        proof {
            lemma_no_exact_log(b as nat, n as nat, e as nat, cur as nat);
        }
        None
    }
}

} // verus!
