//! Off-chain mirror of a constant-product AMM's fixed-point math: integer
//! square roots, swap quoting, liquidity-mint accounting and
//! liquidity-withdrawal accounting, all over unsigned 64-bit token amounts.

pub mod amm;
pub mod isqrt;

pub use amm::get_input;
pub use amm::lemma_withdraw_redeposit_round_trip;
pub use amm::max;
pub use amm::min;
pub use amm::minted_lp_after_increase_liquidity;
pub use amm::quote;
pub use amm::spec_fee_adjusted;
pub use amm::spec_minted_lp;
pub use amm::spec_quote;
pub use amm::spec_share;
pub use amm::spec_swap_output;
pub use amm::withdraw_liquidity;
pub use amm::AmmError;
pub use isqrt::is_isqrt;
pub use isqrt::lemma_isqrt_unique;
pub use isqrt::sqrt;
pub use isqrt::sui_sqrt;
