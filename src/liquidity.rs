use vstd::prelude::*;
use sp_arithmetic::{FixedPointNumber, FixedU128};
use crate::types::{Config, Error, Pair, Balance, MAX_BALANCE};

verus! {

/// The accuracy of `FixedU128`: one unit is this many inner units.
pub const FIXED_ACCURACY: u128 = 1_000_000_000_000_000_000;

/// The smaller of a value and the largest amount.
pub open spec fn saturate(v: int) -> int {
    if v > MAX_BALANCE {
        MAX_BALANCE as int
    } else {
        v
    }
}

/// Inner value of the fixed-point number `n / d`, rounded down, saturating.
pub open spec fn fixed_ratio(n: int, d: int) -> int {
    saturate(n * FIXED_ACCURACY / d)
}

/// The fixed-point number of inner value `inner` times `x`, rounded down,
/// saturating.
pub open spec fn fixed_mul_int(inner: int, x: int) -> int {
    saturate(inner * x / (FIXED_ACCURACY as int))
}

/// Relies on sp_arithmetic's `FixedU128::saturating_from_rational` (and
/// `into_inner`): `n * 10^18 / d` rounded down, saturating at the largest
/// value; it panics on a zero divisor.
#[verifier::external_body]
fn ratio_inner(n: Balance, d: Balance) -> (r: Balance)
    requires
        d > 0,
    ensures
        r == fixed_ratio(n as int, d as int),
{
    FixedU128::saturating_from_rational(n, d).into_inner()
}

/// Relies on sp_arithmetic's `FixedU128::saturating_mul_int` (on
/// `from_inner(inner)`): `inner * x / 10^18` rounded down, saturating at the
/// largest value.
#[verifier::external_body]
fn ratio_mul_int(inner: Balance, x: Balance) -> (r: Balance)
    ensures
        r == fixed_mul_int(inner as int, x as int),
{
    FixedU128::from_inner(inner).saturating_mul_int(x)
}

/// Tokens owed and liquidity minted when `currency_amount` joins `pair`
/// whose liquidity token has `total_liquidity` issued, both in proportion
/// to the currency reserve; the tokens owed get one unit more.
pub open spec fn join_amounts(cfg: Config, pair: Pair, currency_amount: Balance, total_liquidity: Balance) -> Result<(Balance, Balance), Error> {
    let ca = cfg.to_asset(currency_amount as int);
    let cr = cfg.to_asset(pair.currency_reserve as int);
    if cr == 0 {
        Err(Error::Underflow)
    } else {
        let ratio = fixed_ratio(ca, cr);
        Ok((
            saturate(fixed_mul_int(ratio, pair.token_reserve as int) + 1) as Balance,
            fixed_mul_int(ratio, total_liquidity as int) as Balance,
        ))
    }
}

/// Computes the proportional join of `currency_amount` into `pair`.
pub fn compute_join(cfg: &Config, pair: &Pair, currency_amount: Balance, total_liquidity: Balance) -> (r: Result<(Balance, Balance), Error>)
    requires
        cfg.wf(),
    ensures
        r == join_amounts(*cfg, *pair, currency_amount, total_liquidity),
{
    let ca = cfg.currency_to_asset(currency_amount);
    let cr = cfg.currency_to_asset(pair.currency_reserve);
    if cr == 0 {
        return Err(Error::Underflow);
    }
    let ratio = ratio_inner(ca, cr);
    let token_amount = ratio_mul_int(ratio, pair.token_reserve).saturating_add(1);
    let liquidity_minted = ratio_mul_int(ratio, total_liquidity);
    Ok((token_amount, liquidity_minted))
}

} // verus!
