//! Two integer square-root algorithms over `u64`: Newton iteration and a
//! bit-pair binary method over a widened 128-bit intermediate. Both return
//! the floor of the square root, and a uniqueness lemma ties them together.

use vstd::prelude::*;

verus! {

use vstd::arithmetic::power2::pow2;

/// `r` is the floor of the square root of `y`.
pub open spec fn is_isqrt(y: nat, r: nat) -> bool {
    r * r <= y && y < (r + 1) * (r + 1)
}

/// At most one `r` is the floor of the square root of a given `y`, so any
/// two functions that both establish `is_isqrt` agree on every input.
pub proof fn lemma_isqrt_unique(y: nat, r1: nat, r2: nat)
    requires
        is_isqrt(y, r1),
        is_isqrt(y, r2),
    ensures
        r1 == r2,
{
    if r1 < r2 {
        assert(r2 * r2 <= y);
        assert((r1 + 1) * (r1 + 1) <= r2 * r2) by (nonlinear_arith)
            requires
                r1 + 1 <= r2,
        ;
    }
    if r2 < r1 {
        assert(r1 * r1 <= y);
        assert((r2 + 1) * (r2 + 1) <= r1 * r1) by (nonlinear_arith)
            requires
                r2 + 1 <= r1,
        ;
    }
}

/// One Newton step from any positive `x` lands at or above every `t` whose
/// square is at most `y`; in particular at or above the floor square root.
proof fn lemma_newton_step(y: int, x: int, t: int)
    requires
        1 <= x,
        0 <= t,
        t * t <= y,
    ensures
        t <= (y / x + x) / 2,
{
    let d = y / x;
    vstd::arithmetic::div_mod::lemma_fundamental_div_mod(y, x);
    vstd::arithmetic::div_mod::lemma_mod_bound(y, x);
    assert(y < x * (d + 1)) by (nonlinear_arith)
        requires
            y == x * d + y % x,
            y % x < x,
    ;
    if d + x <= 2 * t - 1 {
        vstd::arithmetic::mul::lemma_mul_inequality(d + 1, 2 * t - x, x);
        assert((2 * t - x) * x <= t * t) by (nonlinear_arith);
        assert(false);
    }
    vstd::arithmetic::div_mod::lemma_div_is_ordered(2 * t, d + x, 2);
    vstd::arithmetic::div_mod::lemma_div_multiples_vanish(t, 2);
}

/// Floor integer square root by Newton (Babylonian) iteration: for inputs of
/// at least 4, iterate `x <- (y/x + x) / 2` from `y/2 + 1` until it stops
/// shrinking; smaller inputs are answered directly.
pub fn sqrt(y: u64) -> (r: u64)
    ensures
        is_isqrt(y as nat, r as nat),
{
    if y < 4 {
        if y == 0 {
            proof {
                assert(is_isqrt(0, 0)) by (nonlinear_arith);
            }
            0u64
        } else {
            proof {
                assert(is_isqrt(y as nat, 1)) by (nonlinear_arith)
                    requires
                        1 <= y < 4,
                ;
            }
            1u64
        }
    } else {
        let mut z = y;
        let mut x = y / 2 + 1;
        proof {
            vstd::arithmetic::div_mod::lemma_fundamental_div_mod(y as int, 2);
            vstd::arithmetic::div_mod::lemma_mod_bound(y as int, 2);
            let h = y as int / 2;
            assert(y < (h + 2) * (h + 2)) by (nonlinear_arith)
                requires
                    y <= 2 * h + 1,
                    2 <= h,
            ;
            assert(y < (y + 1) * (y + 1)) by (nonlinear_arith);
        }
        while x < z
            invariant
                4 <= y,
                2 <= x,
                2 <= z,
                x <= y / 2 + 1,
                z <= y,
                y < (x + 1) * (x + 1),
                y < (z + 1) * (z + 1),
                x >= z ==> z * z <= y,
            decreases z,
        {
            z = x;
            proof {
                vstd::arithmetic::div_mod::lemma_fundamental_div_mod(y as int, 2);
                vstd::arithmetic::div_mod::lemma_mod_bound(y as int, 2);
                vstd::arithmetic::div_mod::lemma_div_is_ordered_by_denominator(
                    y as int,
                    2,
                    x as int,
                );
                assert(y / x + x <= 2 * (y as int / 2) + 1);
            }
            let d = y / x;
            let ghost xo = x as int;
            x = (d + x) / 2;
            proof {
                vstd::arithmetic::div_mod::lemma_fundamental_div_mod(d + xo, 2);
                vstd::arithmetic::div_mod::lemma_mod_bound(d + xo, 2);
                // the iterate never falls below the floor square root
                if (x + 1) * (x + 1) <= y {
                    lemma_newton_step(y as int, xo, x as int + 1);
                    assert(false);
                }
                lemma_newton_step(y as int, xo, 2);
                // a stalled iterate certifies the lower bound on the square
                if x >= z {
                    assert(y as int / xo >= xo);
                    vstd::arithmetic::div_mod::lemma_fundamental_div_mod(y as int, xo);
                    vstd::arithmetic::div_mod::lemma_mod_bound(y as int, xo);
                    assert(z * z <= y) by (nonlinear_arith)
                        requires
                            z == xo,
                            1 <= xo,
                            y as int / xo >= xo,
                            y == xo * (y as int / xo) + y as int % xo,
                            y as int % xo >= 0,
                    ;
                }
                // the iterate keeps the bound that rules out overflow
                let h = y as int / 2;
                vstd::arithmetic::div_mod::lemma_fundamental_div_mod_converse(
                    2 * h + 1,
                    2,
                    h,
                    1,
                );
                vstd::arithmetic::div_mod::lemma_div_is_ordered(d + xo, 2 * h + 1, 2);
            }
        }
        proof {
            assert(z * z <= y);
            assert(y < (z + 1) * (z + 1));
            assert(is_isqrt(y as nat, z as nat));
        }
        z
    }
}

/// Floor integer square root by resolving one bit pair of the root per step:
/// the input is widened to 128 bits and a power-of-four probe descends from
/// `2^64`, so the running `res + bit` sum never overflows.
pub fn sui_sqrt(x: u64) -> (r: u64)
    ensures
        is_isqrt(x as nat, r as nat),
{
    let mut bit: u128 = 0x1_0000_0000_0000_0000;
    let mut res: u128 = 0;
    let mut xr: u128 = x as u128;
    let ghost mut k: int = 32;
    let ghost mut p: int = 0;
    proof {
        vstd::arithmetic::power2::lemma2_to64();
        vstd::arithmetic::power2::lemma2_to64_rest();
        vstd::arithmetic::power2::lemma_pow2_adds(33, 33);
        vstd::arithmetic::power2::lemma_pow2_strictly_increases(64, 66);
    }
    while bit != 0
        invariant
            -1 <= k <= 32,
            0 <= p,
            k >= 0 ==> bit == pow2((2 * k) as nat),
            k == -1 ==> bit == 0,
            res == p * pow2((k + 1) as nat),
            xr + p * p == x,
            x < (p + pow2((k + 1) as nat)) * (p + pow2((k + 1) as nat)),
        decreases bit,
    {
        let ghost b = pow2(k as nat) as int;
        proof {
            vstd::arithmetic::power2::lemma_pow2_pos(k as nat);
            vstd::arithmetic::power2::lemma_pow2_adds(k as nat, k as nat);
            vstd::arithmetic::power2::lemma_pow2_adds(k as nat, 1);
            vstd::arithmetic::power2::lemma2_to64();
            vstd::arithmetic::power2::lemma2_to64_rest();
            if 2 * k < 64 {
                vstd::arithmetic::power2::lemma_pow2_strictly_increases((2 * k) as nat, 64);
            }
            assert(bit <= 0x1_0000_0000_0000_0000u128);
            assert(bit == b * b);
            assert(pow2((k + 1) as nat) == 2 * b);
            assert(res == 2 * (p * b)) by (nonlinear_arith)
                requires
                    res == p * (2 * b),
            ;
            assert(p * p <= x);
            assert(p <= 0xFFFF_FFFFint) by (nonlinear_arith)
                requires
                    0 <= p,
                    p * p < 0x1_0000_0000_0000_0000int,
            ;
            if k <= 31 {
                vstd::arithmetic::power2::lemma_pow2_strictly_increases(k as nat, 32);
            }
            assert(b <= 0x1_0000_0000int);
            assert(p * b <= 0xFFFF_FFFFint * 0x1_0000_0000int) by (nonlinear_arith)
                requires
                    0 <= p <= 0xFFFF_FFFFint,
                    0 <= b <= 0x1_0000_0000int,
            ;
            vstd::arithmetic::div_mod::lemma_div_multiples_vanish(p * b, 2);
        }
        if xr >= res + bit {
            xr = xr - (res + bit);
            res = res / 2 + bit;
            proof {
                assert(xr + (p + b) * (p + b) == x) by (nonlinear_arith)
                    requires
                        xr == x - p * p - (2 * (p * b) + b * b),
                        x >= p * p + 2 * (p * b) + b * b,
                ;
                assert(res == (p + b) * b) by (nonlinear_arith)
                    requires
                        res == p * b + b * b,
                ;
                p = p + b;
            }
        } else {
            res = res / 2;
            proof {
                assert(x < (p + b) * (p + b)) by (nonlinear_arith)
                    requires
                        x - p * p < 2 * (p * b) + b * b,
                ;
            }
        }
        bit = bit / 4;
        proof {
            if k >= 1 {
                vstd::arithmetic::power2::lemma_pow2_adds((2 * k - 2) as nat, 2);
                vstd::arithmetic::div_mod::lemma_div_multiples_vanish(
                    pow2((2 * k - 2) as nat) as int,
                    4,
                );
            }
            k = k - 1;
        }
    }
    proof {
        vstd::arithmetic::power2::lemma2_to64();
        if k >= 0 {
            vstd::arithmetic::power2::lemma_pow2_pos((2 * k) as nat);
            assert(bit > 0);
        }
        assert(k == -1);
        assert(pow2((k + 1) as nat) == 1);
        assert(res == p) by (nonlinear_arith)
            requires
                res == p * pow2((k + 1) as nat),
                pow2((k + 1) as nat) == 1,
        ;
        assert(p <= 0xFFFF_FFFFint) by (nonlinear_arith)
            requires
                0 <= p,
                p * p < 0x1_0000_0000_0000_0000int,
        ;
    }
    res as u64
}

} // verus!
