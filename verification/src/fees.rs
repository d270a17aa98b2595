//! Trade volume and fee arithmetic. Rounding always favors the pool: buyers pay
//! rounded up, sellers receive rounded down, fees round up, rebates round down.
use crate::constants::{MAKER_REBATE_BPS, PRICE_SCALE, TAKER_FEE_BPS};
use vstd::prelude::*;

verus! {

/// `a / b` rounded up, for `b > 0`.
pub open spec fn ceil_div(a: int, b: int) -> int {
    (a + b - 1) / b
}

/// Taker fee on `volume` base units: `volume * TAKER_FEE_BPS / 10000`, rounded up.
pub open spec fn spec_taker_fee(volume: int) -> int {
    ceil_div(volume * TAKER_FEE_BPS, 10000)
}

/// Maker rebate on `volume` base units: `volume * MAKER_REBATE_BPS / 10000`, rounded down.
pub open spec fn spec_maker_rebate(volume: int) -> int {
    volume * MAKER_REBATE_BPS / 10000
}

/// Collateral a buyer pays for `amount` shares at `price`: rounded up.
pub open spec fn spec_buy_volume(amount: int, price: int) -> int {
    ceil_div(amount * price, PRICE_SCALE as int)
}

/// Proceeds a seller receives for `amount` shares at `price`: rounded down.
pub open spec fn spec_sell_volume(amount: int, price: int) -> int {
    amount * price / (PRICE_SCALE as int)
}

/// Compute taker fee (round up).
pub fn taker_fee(volume: u128) -> (r: u128)
    requires
        volume * TAKER_FEE_BPS <= u128::MAX,
    ensures
        r == spec_taker_fee(volume as int),
{
    let scaled = volume * (TAKER_FEE_BPS as u128);
    let q = scaled / 10000;
    let r = if scaled % 10000 == 0 {
        q
    } else {
        q + 1
    };
    assert(r == ceil_div(scaled as int, 10000)) by (nonlinear_arith)
        requires
            q == scaled / 10000,
            scaled % 10000 == 0 ==> r == q,
            scaled % 10000 != 0 ==> r == q + 1,
    ;
    r
}

/// Compute maker rebate (round down).
pub fn maker_rebate(volume: u128) -> (r: u128)
    requires
        volume * MAKER_REBATE_BPS <= u128::MAX,
    ensures
        r == spec_maker_rebate(volume as int),
{
    volume * (MAKER_REBATE_BPS as u128) / 10000
}

proof fn lemma_product_bound(amount: u64, price: u64)
    ensures
        (amount as int) * (price as int) <= 0xffff_ffff_ffff_fffe_0000_0000_0000_0001int,
{
    assert((amount as int) * (price as int) <= 0xffff_ffff_ffff_fffe_0000_0000_0000_0001int)
        by (nonlinear_arith)
        requires
            amount <= 0xffff_ffff_ffff_ffffu64,
            price <= 0xffff_ffff_ffff_ffffu64,
    ;
}

/// Buy volume (round up): ceil(amount * price / SCALE).
pub fn buy_volume(amount: u64, price: u64) -> (r: u128)
    ensures
        r == spec_buy_volume(amount as int, price as int),
{
    proof {
        lemma_product_bound(amount, price);
    }
    let product = (amount as u128) * (price as u128);
    (product + ((PRICE_SCALE as u128) - 1)) / (PRICE_SCALE as u128)
}

/// Sell volume (round down): floor(amount * price / SCALE).
pub fn sell_volume(amount: u64, price: u64) -> (r: u128)
    ensures
        r == spec_sell_volume(amount as int, price as int),
{
    proof {
        lemma_product_bound(amount, price);
    }
    let product = (amount as u128) * (price as u128);
    product / (PRICE_SCALE as u128)
}

/// The fee a taker pays never falls short of the rebate its maker receives:
/// every match leaves a non-negative net fee to the pool.
pub proof fn lemma_net_fee_nonnegative(volume: int)
    requires
        volume >= 0,
    ensures
        spec_taker_fee(volume) >= spec_maker_rebate(volume),
{
    assert(ceil_div(volume * 50, 10000) >= volume * 10 / 10000) by (nonlinear_arith)
        requires
            volume >= 0,
    ;
}

/// The pool never loses on rounding: a buyer pays at least what a seller of the
/// same shares at the same price receives, and at most one base unit more.
pub proof fn lemma_rounding_favors_pool(amount: int, price: int)
    requires
        amount >= 0,
        price >= 0,
    ensures
        spec_sell_volume(amount, price) <= spec_buy_volume(amount, price),
        spec_buy_volume(amount, price) <= spec_sell_volume(amount, price) + 1,
        (amount * price) % (PRICE_SCALE as int) == 0 ==> spec_buy_volume(amount, price)
            == spec_sell_volume(amount, price),
{
    let x = amount * price;
    assert(x >= 0) by (nonlinear_arith)
        requires
            amount >= 0,
            price >= 0,
            x == amount * price,
    ;
    assert(x / 1000000 <= (x + 999999) / 1000000 <= x / 1000000 + 1) by (nonlinear_arith)
        requires
            x >= 0,
    ;
    assert(x % 1000000 == 0 ==> (x + 999999) / 1000000 == x / 1000000) by (nonlinear_arith)
        requires
            x >= 0,
    ;
}

} // verus!
