//! Protocol constants.
use vstd::prelude::*;

verus! {

/// Prices are fixed-point with six decimals: 1.0 == 1_000_000.
pub const PRICE_SCALE: u64 = 1_000_000;

/// Taker fee in basis points (0.5%).
pub const TAKER_FEE_BPS: u64 = 50;

/// Maker rebate in basis points (0.1%).
pub const MAKER_REBATE_BPS: u64 = 10;

/// Number of confirmations after which a block is treated as final.
pub const FINALITY_BLOCKS: u64 = 3;

} // verus!
