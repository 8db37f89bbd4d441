//! Constant-product pool accounting: price quoting, swap output with a fee
//! in basis points, proportional LP-share minting, and proportional
//! withdrawal. Every quantity is a raw unsigned 64-bit token amount; any
//! decimal scaling is the caller's convention.

use vstd::prelude::*;

verus! {

/// How a pool computation can fail: a zero reserve or zero share supply in a
/// denominator, or a mathematical result too large for a 64-bit amount.
#[derive(Clone, Copy, Debug, PartialEq, Eq, Structural)]
pub enum AmmError {
    DivisionByZero,
    Overflow,
}

/// Amount of token B matching `input_a` at the pool's current reserve ratio.
/// The ratio is truncated to an integer before the multiplication, exactly as
/// the pool contract computes it.
pub open spec fn spec_quote(reserve_a: int, reserve_b: int, input_a: int) -> int {
    (reserve_b / reserve_a) * input_a
}

/// A swap input with the fee (basis points out of 10000) deducted, scaled by
/// 10000 to keep the amount an integer.
pub open spec fn spec_fee_adjusted(dx: int, f: int) -> int {
    (10000 - f) * dx
}

/// Exact constant-product swap output, floored:
/// `dx*(10000-f)*y / (10000*x + dx*(10000-f))`.
pub open spec fn spec_swap_output(dx: int, x: int, y: int, f: int) -> int {
    spec_fee_adjusted(dx, f) * y / (10000 * x + spec_fee_adjusted(dx, f))
}

/// LP shares minted for depositing `dx` and `dy` into a pool holding `x` and
/// `y` with `lp_supply` shares outstanding: the smaller of the two
/// proportional contributions, so overstating one side mints nothing extra.
pub open spec fn spec_minted_lp(x: int, y: int, dx: int, dy: int, lp_supply: int) -> int {
    vstd::math::min(dx * lp_supply / x, dy * lp_supply / y)
}

/// The proportional share of one reserve owed for redeeming `lp_value` of
/// `lp_supply` outstanding shares, floored.
pub open spec fn spec_share(reserve: int, lp_value: int, lp_supply: int) -> int {
    reserve * lp_value / lp_supply
}

/// The smaller of two token amounts; on a tie, either (they are equal).
pub fn min(a: u64, b: u64) -> (r: u64)
    ensures
        r == vstd::math::min(a as int, b as int),
{
    if a > b {
        b
    } else {
        a
    }
}

/// The larger of two token amounts; on a tie, either (they are equal).
pub fn max(a: u64, b: u64) -> (r: u64)
    ensures
        r == vstd::math::max(a as int, b as int),
{
    if a > b {
        a
    } else {
        b
    }
}

/// Quote of token B for `input_a` of token A at the current pool ratio.
/// Rejects an empty A reserve, and a product that no 64-bit amount can hold.
pub fn quote(reserve_a: u64, reserve_b: u64, input_a: u64) -> (r: Result<u64, AmmError>)
    ensures
        reserve_a == 0 <==> r == Err::<u64, AmmError>(AmmError::DivisionByZero),
        reserve_a != 0 && spec_quote(reserve_a as int, reserve_b as int, input_a as int)
            <= u64::MAX ==> r == Ok::<u64, AmmError>(
            spec_quote(reserve_a as int, reserve_b as int, input_a as int) as u64,
        ),
        reserve_a != 0 && spec_quote(reserve_a as int, reserve_b as int, input_a as int)
            > u64::MAX ==> r == Err::<u64, AmmError>(AmmError::Overflow),
{
    if reserve_a == 0 {
        return Err(AmmError::DivisionByZero);
    }
    let ratio: u128 = (reserve_b / reserve_a) as u128;
    proof {
        assert(ratio * input_a <= 0xFFFF_FFFF_FFFF_FFFFu128 * 0xFFFF_FFFF_FFFF_FFFFu128)
            by (nonlinear_arith)
            requires
                0 <= ratio <= 0xFFFF_FFFF_FFFF_FFFFu128,
                0 <= input_a <= 0xFFFF_FFFF_FFFF_FFFFu128,
        ;
    }
    let q: u128 = ratio * (input_a as u128);
    if q > 0xFFFF_FFFF_FFFF_FFFFu128 {
        Err(AmmError::Overflow)
    } else {
        Ok(q as u64)
    }
}

/// Floor of `a * y / den` without a 256-bit intermediate: `y` is split at 32
/// bits and the division is folded in limb by limb. Sound whenever `a` is at
/// most `den` (so the quotient is at most `y`) and `den` stays under 2^80.
fn mul_div_u128(a: u128, y: u64, den: u128) -> (q: u64)
    requires
        0 < den,
        a <= den,
        den < 0x1_0000_0000_0000_0000_0000u128,
    ensures
        q == a * y / (den as int),
        q <= y,
{
    let y1: u64 = y / 0x1_0000_0000;
    let y0: u64 = y % 0x1_0000_0000;
    proof {
        assert(a * y1 <= den * y1 && den * y1 < 0x1_0000_0000_0000_0000_0000_0000_0000u128)
            by (nonlinear_arith)
            requires
                0 <= a <= den,
                den < 0x1_0000_0000_0000_0000_0000u128,
                0 <= y1 < 0x1_0000_0000u128,
        ;
    }
    let n1: u128 = a * (y1 as u128);
    let q1: u128 = n1 / den;
    let r1: u128 = n1 % den;
    proof {
        vstd::arithmetic::div_mod::lemma_fundamental_div_mod(n1 as int, den as int);
        vstd::arithmetic::div_mod::lemma_mod_bound(n1 as int, den as int);
        assert(q1 <= y1) by (nonlinear_arith)
            requires
                n1 == den * q1 + r1,
                n1 <= den * y1,
                0 <= r1,
                0 < den,
                0 <= q1,
                0 <= y1,
        ;
        assert(a * y0 <= den * 0x1_0000_0000u128) by (nonlinear_arith)
            requires
                0 <= a <= den,
                0 <= y0 < 0x1_0000_0000u128,
        ;
    }
    let n2: u128 = r1 * 0x1_0000_0000u128 + a * (y0 as u128);
    let q2: u128 = n2 / den;
    proof {
        vstd::arithmetic::div_mod::lemma_fundamental_div_mod(n2 as int, den as int);
        vstd::arithmetic::div_mod::lemma_mod_bound(n2 as int, den as int);
        assert(q2 < 0x2_0000_0000u128) by (nonlinear_arith)
            requires
                n2 == den * q2 + n2 % den,
                0 <= n2 % den,
                n2 < den * 0x2_0000_0000u128,
                0 < den,
                0 <= q2,
        ;
    }
    let q: u128 = q1 * 0x1_0000_0000u128 + q2;
    proof {
        let r2 = n2 as int % den as int;
        vstd::arithmetic::div_mod::lemma_fundamental_div_mod(y as int, 0x1_0000_0000);
        assert(a * y == den * (q1 * 0x1_0000_0000 + q2) + r2) by (nonlinear_arith)
            requires
                y == 0x1_0000_0000 * (y as int / 0x1_0000_0000) + y as int % 0x1_0000_0000,
                y1 == y as int / 0x1_0000_0000,
                y0 == y as int % 0x1_0000_0000,
                n1 == a * y1,
                n1 == den * q1 + r1,
                n2 == r1 * 0x1_0000_0000 + a * y0,
                n2 == den * q2 + r2,
        ;
        vstd::arithmetic::div_mod::lemma_fundamental_div_mod_converse(
            a * y,
            den as int,
            q1 * 0x1_0000_0000 + q2,
            r2,
        );
        vstd::arithmetic::mul::lemma_mul_inequality(a as int, den as int, y as int);
        vstd::arithmetic::div_mod::lemma_div_is_ordered(a * y, den * y, den as int);
        vstd::arithmetic::div_mod::lemma_div_multiples_vanish(y as int, den as int);
    }
    q as u64
}

/// Swap output `dy` for paying `dx` of token X into a pool of reserves `x`
/// and `y`, with fee `f` in basis points out of 10000. The products are
/// carried in wide intermediates, so the result is the exactly floored
/// constant-product formula for every input; refused only when the whole
/// denominator is zero (an empty X reserve beside a zero fee-adjusted input).
pub fn get_input(dx: u64, x: u64, y: u64, f: u64) -> (r: Result<u64, AmmError>)
    requires
        f <= 10000,
    ensures
        10000 * x + spec_fee_adjusted(dx as int, f as int) == 0 <==> r == Err::<
            u64,
            AmmError,
        >(AmmError::DivisionByZero),
        10000 * x + spec_fee_adjusted(dx as int, f as int) != 0 ==> r == Ok::<
            u64,
            AmmError,
        >(spec_swap_output(dx as int, x as int, y as int, f as int) as u64),
        10000 * x + spec_fee_adjusted(dx as int, f as int) != 0 ==> 0 <= spec_swap_output(
            dx as int,
            x as int,
            y as int,
            f as int,
        ) <= y,
{
    proof {
        assert((10000 - f) * dx < 0x4000_0000_0000_0000_0000u128) by (nonlinear_arith)
            requires
                0 <= 10000 - f <= 10000,
                0 <= dx <= 0xFFFF_FFFF_FFFF_FFFFu128,
        ;
    }
    let a: u128 = (10000 - f) as u128 * (dx as u128);
    let den: u128 = 10000u128 * (x as u128) + a;
    if den == 0 {
        return Err(AmmError::DivisionByZero);
    }
    proof {
        assert(10000u128 * (x as u128) < 0x4000_0000_0000_0000_0000u128) by (nonlinear_arith)
            requires
                0 <= x <= 0xFFFF_FFFF_FFFF_FFFFu128,
        ;
    }
    let out: u64 = mul_div_u128(a, y, den);
    Ok(out)
}

/// LP shares minted for a deposit of `dx` and `dy` on reserves `x` and `y`
/// with `lp_supply` shares outstanding: the smaller proportional
/// contribution. Rejects an empty reserve, and a share count beyond 64 bits.
pub fn minted_lp_after_increase_liquidity(x: u64, y: u64, dx: u64, dy: u64, lp_supply: u64) -> (r:
    Result<u64, AmmError>)
    ensures
        x == 0 || y == 0 <==> r == Err::<u64, AmmError>(AmmError::DivisionByZero),
        x != 0 && y != 0 && spec_minted_lp(
            x as int,
            y as int,
            dx as int,
            dy as int,
            lp_supply as int,
        ) <= u64::MAX ==> r == Ok::<u64, AmmError>(
            spec_minted_lp(x as int, y as int, dx as int, dy as int, lp_supply as int) as u64,
        ),
        x != 0 && y != 0 && spec_minted_lp(
            x as int,
            y as int,
            dx as int,
            dy as int,
            lp_supply as int,
        ) > u64::MAX ==> r == Err::<u64, AmmError>(AmmError::Overflow),
{
    if x == 0 || y == 0 {
        return Err(AmmError::DivisionByZero);
    }
    proof {
        assert(dx * lp_supply <= 0xFFFF_FFFF_FFFF_FFFFu128 * 0xFFFF_FFFF_FFFF_FFFFu128)
            by (nonlinear_arith)
            requires
                0 <= dx <= 0xFFFF_FFFF_FFFF_FFFFu128,
                0 <= lp_supply <= 0xFFFF_FFFF_FFFF_FFFFu128,
        ;
        assert(dy * lp_supply <= 0xFFFF_FFFF_FFFF_FFFFu128 * 0xFFFF_FFFF_FFFF_FFFFu128)
            by (nonlinear_arith)
            requires
                0 <= dy <= 0xFFFF_FFFF_FFFF_FFFFu128,
                0 <= lp_supply <= 0xFFFF_FFFF_FFFF_FFFFu128,
        ;
    }
    let qa: u128 = (dx as u128) * (lp_supply as u128) / (x as u128);
    let qb: u128 = (dy as u128) * (lp_supply as u128) / (y as u128);
    let m: u128 = if qa > qb {
        qb
    } else {
        qa
    };
    if m > 0xFFFF_FFFF_FFFF_FFFFu128 {
        Err(AmmError::Overflow)
    } else {
        Ok(m as u64)
    }
}

/// Token amounts owed for redeeming `lp_value` of `lp_supply` outstanding
/// shares: the proportional slice of each reserve. Rejects an empty supply,
/// and a slice beyond 64 bits (a redemption above the outstanding supply).
pub fn withdraw_liquidity(sui_r: u64, token_y_r: u64, lp_value: u64, lp_supply: u64) -> (r: Result<
    (u64, u64),
    AmmError,
>)
    ensures
        lp_supply == 0 <==> r == Err::<(u64, u64), AmmError>(AmmError::DivisionByZero),
        lp_supply != 0 ==> {
            let wa = spec_share(sui_r as int, lp_value as int, lp_supply as int);
            let wb = spec_share(token_y_r as int, lp_value as int, lp_supply as int);
            if wa <= u64::MAX && wb <= u64::MAX {
                r == Ok::<(u64, u64), AmmError>((wa as u64, wb as u64))
            } else {
                r == Err::<(u64, u64), AmmError>(AmmError::Overflow)
            }
        },
{
    if lp_supply == 0 {
        return Err(AmmError::DivisionByZero);
    }
    proof {
        assert(sui_r * lp_value <= 0xFFFF_FFFF_FFFF_FFFFu128 * 0xFFFF_FFFF_FFFF_FFFFu128)
            by (nonlinear_arith)
            requires
                0 <= sui_r <= 0xFFFF_FFFF_FFFF_FFFFu128,
                0 <= lp_value <= 0xFFFF_FFFF_FFFF_FFFFu128,
        ;
        assert(token_y_r * lp_value <= 0xFFFF_FFFF_FFFF_FFFFu128 * 0xFFFF_FFFF_FFFF_FFFFu128)
            by (nonlinear_arith)
            requires
                0 <= token_y_r <= 0xFFFF_FFFF_FFFF_FFFFu128,
                0 <= lp_value <= 0xFFFF_FFFF_FFFF_FFFFu128,
        ;
    }
    let wa: u128 = (sui_r as u128) * (lp_value as u128) / (lp_supply as u128);
    let wb: u128 = (token_y_r as u128) * (lp_value as u128) / (lp_supply as u128);
    if wa > 0xFFFF_FFFF_FFFF_FFFFu128 || wb > 0xFFFF_FFFF_FFFF_FFFFu128 {
        Err(AmmError::Overflow)
    } else {
        Ok((wa as u64, wb as u64))
    }
}

/// Withdrawing a share of the pool and re-depositing the two withdrawn
/// amounts at unchanged reserves and supply never mints more LP shares than
/// were redeemed, and falls short of them by at most the truncation loss
/// `lp_supply/sui_r + lp_supply/token_y_r + 1`; when the supply divides both
/// withdrawal products exactly, it mints back exactly the redeemed amount.
pub proof fn lemma_withdraw_redeposit_round_trip(
    sui_r: u64,
    token_y_r: u64,
    lp_value: u64,
    lp_supply: u64,
)
    requires
        0 < sui_r,
        0 < token_y_r,
        0 < lp_supply,
    ensures
        spec_minted_lp(
            sui_r as int,
            token_y_r as int,
            spec_share(sui_r as int, lp_value as int, lp_supply as int),
            spec_share(token_y_r as int, lp_value as int, lp_supply as int),
            lp_supply as int,
        ) <= lp_value,
        spec_minted_lp(
            sui_r as int,
            token_y_r as int,
            spec_share(sui_r as int, lp_value as int, lp_supply as int),
            spec_share(token_y_r as int, lp_value as int, lp_supply as int),
            lp_supply as int,
        ) >= lp_value - lp_supply as int / sui_r as int - lp_supply as int / token_y_r as int - 1,
        (sui_r * lp_value) % (lp_supply as int) == 0 && (token_y_r * lp_value) % (
        lp_supply as int) == 0 ==> spec_minted_lp(
            sui_r as int,
            token_y_r as int,
            spec_share(sui_r as int, lp_value as int, lp_supply as int),
            spec_share(token_y_r as int, lp_value as int, lp_supply as int),
            lp_supply as int,
        ) == lp_value,
{
    let rr = sui_r as int;
    let tt = token_y_r as int;
    let ll = lp_value as int;
    let ss = lp_supply as int;
    let wa = rr * ll / ss;
    let wb = tt * ll / ss;
    vstd::arithmetic::div_mod::lemma_fundamental_div_mod(rr * ll, ss);
    vstd::arithmetic::div_mod::lemma_mod_bound(rr * ll, ss);
    vstd::arithmetic::div_mod::lemma_fundamental_div_mod(tt * ll, ss);
    vstd::arithmetic::div_mod::lemma_mod_bound(tt * ll, ss);
    assert(0 <= wa * ss <= rr * ll) by (nonlinear_arith)
        requires
            rr * ll == ss * wa + (rr * ll) % ss,
            0 <= (rr * ll) % ss,
            0 <= rr * ll,
    ;
    vstd::arithmetic::div_mod::lemma_div_is_ordered(wa * ss, rr * ll, rr);
    vstd::arithmetic::div_mod::lemma_div_multiples_vanish(ll, rr);
    assert(rr * ll / rr == ll);
    assert(wa * ss / rr <= ll);
    let ca = ss / rr;
    let cb = ss / tt;
    vstd::arithmetic::div_mod::lemma_fundamental_div_mod(ss, rr);
    vstd::arithmetic::div_mod::lemma_mod_bound(ss, rr);
    vstd::arithmetic::div_mod::lemma_fundamental_div_mod(ss, tt);
    vstd::arithmetic::div_mod::lemma_mod_bound(ss, tt);
    vstd::arithmetic::div_mod::lemma_div_pos_is_pos(ss, rr);
    vstd::arithmetic::div_mod::lemma_div_pos_is_pos(ss, tt);
    assert(rr * (ll - ca - 1) <= wa * ss) by (nonlinear_arith)
        requires
            rr * ll == ss * wa + (rr * ll) % ss,
            (rr * ll) % ss < ss,
            ss == rr * ca + ss % rr,
            ss % rr < rr,
            0 < rr,
    ;
    assert(tt * (ll - cb - 1) <= wb * ss) by (nonlinear_arith)
        requires
            tt * ll == ss * wb + (tt * ll) % ss,
            (tt * ll) % ss < ss,
            ss == tt * cb + ss % tt,
            ss % tt < tt,
            0 < tt,
    ;
    vstd::arithmetic::div_mod::lemma_div_is_ordered(rr * (ll - ca - 1), wa * ss, rr);
    vstd::arithmetic::div_mod::lemma_div_multiples_vanish(ll - ca - 1, rr);
    vstd::arithmetic::div_mod::lemma_div_is_ordered(tt * (ll - cb - 1), wb * ss, tt);
    vstd::arithmetic::div_mod::lemma_div_multiples_vanish(ll - cb - 1, tt);
    assert(ll - ca - 1 <= wa * ss / rr);
    assert(ll - cb - 1 <= wb * ss / tt);
    if (rr * ll) % ss == 0 && (tt * ll) % ss == 0 {
        assert(wa * ss == rr * ll) by (nonlinear_arith)
            requires
                rr * ll == ss * wa + (rr * ll) % ss,
                (rr * ll) % ss == 0,
        ;
        assert(wb * ss == tt * ll) by (nonlinear_arith)
            requires
                tt * ll == ss * wb + (tt * ll) % ss,
                (tt * ll) % ss == 0,
        ;
        vstd::arithmetic::div_mod::lemma_div_multiples_vanish(ll, tt);
        assert(wa * ss / rr == ll);
        assert(wb * ss / tt == ll);
    }
}

} // verus!
