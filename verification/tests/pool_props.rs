use sui_lipse::get_input;
use sui_lipse::max;
use sui_lipse::min;
use sui_lipse::minted_lp_after_increase_liquidity;
use sui_lipse::quote;
use sui_lipse::sqrt;
use sui_lipse::sui_sqrt;
use sui_lipse::withdraw_liquidity;
use sui_lipse::AmmError;

const M_HALF: u64 = u64::MAX / 2;

#[test]
fn sqrt_known_values() {
    assert_eq!(sqrt(0), 0);
    assert_eq!(sqrt(1), 1);
    assert_eq!(sqrt(3), 1);
    assert_eq!(sqrt(4), 2);
    assert_eq!(sqrt(16), 4);
    assert_eq!(sqrt(u64::MAX), 4294967295);
}

#[test]
fn sqrt_floor_semantics() {
    let samples: [u64; 12] = [
        0,
        1,
        2,
        3,
        4,
        5,
        99,
        100,
        65_535,
        4_294_967_296,
        u64::MAX - 1,
        u64::MAX,
    ];
    for &y in samples.iter() {
        let r = sqrt(y) as u128;
        let y_wide = y as u128;
        assert!(r * r <= y_wide);
        assert!((r + 1) * (r + 1) > y_wide);
    }
}

#[test]
fn sqrt_agrees_with_sui_sqrt() {
    let mut samples: Vec<u64> = vec![u64::MAX, u64::MAX - 1, M_HALF, 4_294_967_295, 4_294_967_296];
    let mut v: u64 = 0;
    while v < 2_000 {
        samples.push(v);
        v += 1;
    }
    let mut root: u64 = 1;
    while root < 3_000_000_000 {
        let sq = root * root;
        samples.push(sq - 1);
        samples.push(sq);
        samples.push(sq + 1);
        root = root * 3 + 7;
    }
    for &y in samples.iter() {
        assert_eq!(sqrt(y), sui_sqrt(y), "diverged at {}", y);
    }
}

#[test]
fn min_max_selection() {
    assert_eq!(min(5, 9), 5);
    assert_eq!(max(5, 9), 9);
    assert_eq!(min(7, 7), 7);
    assert_eq!(max(7, 7), 7);
}

#[test]
fn quote_truncates_ratio_before_multiplying() {
    assert_eq!(quote(2, 10, 3), Ok(15));
    // 10/3 truncates to 3 before the multiplication, so 7 * 3, not 70/3 * ...
    assert_eq!(quote(3, 10, 7), Ok(21));
    assert_eq!(quote(5, 4, 1_000_000), Ok(0));
}

#[test]
fn quote_rejects_empty_reserve_and_wide_product() {
    assert_eq!(quote(0, 10, 3), Err(AmmError::DivisionByZero));
    assert_eq!(quote(1, u64::MAX, 2), Err(AmmError::Overflow));
    assert_eq!(quote(1, u64::MAX, 1), Ok(u64::MAX));
}

#[test]
fn get_input_matches_exact_rational_formula() {
    // expected value recomputed here with exact wide-integer arithmetic
    let a: u128 = (10_000 - 30) * 1_000;
    let den: u128 = 10_000 * 1_000_000 + a;
    let expected: u128 = a * 1_000_000_000 / den;
    let got = get_input(1_000, 1_000_000, 1_000_000_000, 30).unwrap();
    assert_eq!(got as u128, expected);
    assert_eq!(got, 996_006);
}

#[test]
fn get_input_near_max_reserves() {
    // f == 0 on equal amounts: dy = 10^4*m*m / (2*10^4*m) = m/2 exactly
    let m: u64 = M_HALF;
    assert_eq!(get_input(m, m, m, 0), Ok(m / 2));
    // f == 30: dy = 9970*m*m / (19970*m) = 997*m/1997, floored
    let expected: u128 = 997 * (m as u128) / 1997;
    assert_eq!(get_input(m, m, m, 30).unwrap() as u128, expected);
    // a huge output reserve exercises the widened numerator on its own
    assert_eq!(get_input(1, 1, u64::MAX, 0), Ok(u64::MAX / 2));
}

#[test]
fn get_input_rejects_zero_denominator() {
    assert_eq!(get_input(0, 0, 5, 30), Err(AmmError::DivisionByZero));
    assert_eq!(get_input(7, 0, 5, 10_000), Err(AmmError::DivisionByZero));
    // zero input reserve alone is fine while the fee leaves some of dx
    assert_eq!(get_input(10, 0, 5, 30), Ok(5));
}

#[test]
fn minted_lp_proportional_deposit() {
    assert_eq!(
        minted_lp_after_increase_liquidity(100, 100, 10, 10, 1_000),
        Ok(100)
    );
    // the smaller side caps the mint
    assert_eq!(
        minted_lp_after_increase_liquidity(100, 100, 10, 5, 1_000),
        Ok(50)
    );
}

#[test]
fn minted_lp_boundaries() {
    assert_eq!(
        minted_lp_after_increase_liquidity(0, 100, 10, 10, 1_000),
        Err(AmmError::DivisionByZero)
    );
    assert_eq!(
        minted_lp_after_increase_liquidity(100, 0, 10, 10, 1_000),
        Err(AmmError::DivisionByZero)
    );
    let m: u64 = M_HALF;
    assert_eq!(minted_lp_after_increase_liquidity(m, m, m, m, m), Ok(m));
    assert_eq!(
        minted_lp_after_increase_liquidity(1, 1, m, m, m),
        Err(AmmError::Overflow)
    );
}

#[test]
fn withdraw_proportional_share() {
    assert_eq!(withdraw_liquidity(1_000, 2_000, 100, 1_000), Ok((100, 200)));
}

#[test]
fn withdraw_boundaries() {
    assert_eq!(
        withdraw_liquidity(1_000, 2_000, 100, 0),
        Err(AmmError::DivisionByZero)
    );
    assert_eq!(
        withdraw_liquidity(u64::MAX, 1, 10, 5),
        Err(AmmError::Overflow)
    );
}

#[test]
fn withdraw_then_redeposit_returns_the_shares() {
    // exact case: the supply divides both products, so the round trip is lossless
    let (wa, wb) = withdraw_liquidity(1_000, 2_000, 100, 1_000).unwrap();
    assert_eq!(
        minted_lp_after_increase_liquidity(1_000, 2_000, wa, wb, 1_000),
        Ok(100)
    );
    // truncating case: the round trip never mints more than was redeemed,
    // and loses at most lp_supply/sui_r + lp_supply/token_y_r + 1 shares
    let (ta, tb) = withdraw_liquidity(1_000, 3_000, 7, 999).unwrap();
    assert_eq!((ta, tb), (7, 21));
    let minted = minted_lp_after_increase_liquidity(1_000, 3_000, ta, tb, 999).unwrap();
    assert!(minted <= 7);
    assert!(minted >= 7 - 999 / 1_000 - 999 / 3_000 - 1);
    assert_eq!(minted, 6);
}
