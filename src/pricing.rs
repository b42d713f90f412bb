use vstd::prelude::*;
use crate::types::{Config, Error, Pair, Swap, Balance, MAX_BALANCE};
use vstd::arithmetic::div_mod::{lemma_fundamental_div_mod, lemma_mod_pos_bound, lemma_div_pos_is_pos};

verus! {

/// Output bought by `x` from a pool with reserves `ri` (input side) and `ro`
/// (output side), after the provider fee, rounded down.
pub open spec fn output_for(cfg: Config, x: int, ri: int, ro: int) -> int {
    (x * cfg.net() * ro) / (ri * cfg.provider_fee_denominator + x * cfg.net())
}

/// Input needed to buy `y` from a pool with reserves `ri` and `ro`, after the
/// provider fee: the exact quotient rounded down, plus one unit.
pub open spec fn input_for(cfg: Config, y: int, ri: int, ro: int) -> int {
    (ri * y * cfg.provider_fee_denominator) / ((ro - y) * cfg.net()) + 1
}

/// `output_for` where each intermediate product fits, else `Overflow`.
pub open spec fn output_amount(cfg: Config, x: Balance, ri: Balance, ro: Balance) -> Result<Balance, Error> {
    let xn = x * cfg.net();
    let rd = ri * cfg.provider_fee_denominator;
    if xn <= MAX_BALANCE && xn * ro <= MAX_BALANCE && rd <= MAX_BALANCE && rd + xn <= MAX_BALANCE {
        Ok(output_for(cfg, x as int, ri as int, ro as int) as Balance)
    } else {
        Err(Error::Overflow)
    }
}

/// `input_for`; `OverLiquidityBalance` where the pool cannot pay `y`, and
/// `Overflow` where an intermediate value does not fit.
pub open spec fn input_amount(cfg: Config, y: Balance, ri: Balance, ro: Balance) -> Result<Balance, Error> {
    if y >= ro {
        Err(Error::OverLiquidityBalance)
    } else if ri * y <= MAX_BALANCE && ri * y * cfg.provider_fee_denominator <= MAX_BALANCE
        && (ro - y) * cfg.net() <= MAX_BALANCE && input_for(cfg, y as int, ri as int, ro as int)
        <= MAX_BALANCE {
        Ok(input_for(cfg, y as int, ri as int, ro as int) as Balance)
    } else {
        Err(Error::Overflow)
    }
}

/// Currency paid and tokens received when buying the pair's asset with
/// currency.
pub open spec fn currency_to_asset_quote(cfg: Config, pair: Pair, swap: Swap) -> Result<(Balance, Balance), Error> {
    let tr = cfg.to_currency(pair.token_reserve as int);
    match swap {
        Swap::BasedInput { input_amount, min_output } => {
            if tr > MAX_BALANCE {
                Err(Error::Overflow)
            } else {
                match output_amount(cfg, input_amount, pair.currency_reserve, tr as Balance) {
                    Err(e) => Err(e),
                    Ok(out) => {
                        let tokens = cfg.to_asset(out as int);
                        if tokens < min_output {
                            Err(Error::SlippageExceeded)
                        } else {
                            Ok((input_amount, tokens as Balance))
                        }
                    },
                }
            }
        },
        Swap::BasedOutput { max_input, output_amount } => {
            let wanted = cfg.to_currency(output_amount as int);
            if wanted > MAX_BALANCE || tr > MAX_BALANCE {
                Err(Error::Overflow)
            } else {
                match input_amount(cfg, wanted as Balance, pair.currency_reserve, tr as Balance) {
                    Err(e) => Err(e),
                    Ok(paid) => if paid > max_input {
                        Err(Error::SlippageExceeded)
                    } else {
                        Ok((paid, output_amount))
                    },
                }
            }
        },
    }
}

/// Currency received and tokens paid when selling the pair's asset for
/// currency.
pub open spec fn asset_to_currency_quote(cfg: Config, pair: Pair, swap: Swap) -> Result<(Balance, Balance), Error> {
    let tr = cfg.to_currency(pair.token_reserve as int);
    match swap {
        Swap::BasedInput { input_amount, min_output } => {
            let sold = cfg.to_currency(input_amount as int);
            if sold > MAX_BALANCE || tr > MAX_BALANCE {
                Err(Error::Overflow)
            } else {
                match output_amount(cfg, sold as Balance, tr as Balance, pair.currency_reserve) {
                    Err(e) => Err(e),
                    Ok(out) => if out < min_output {
                        Err(Error::SlippageExceeded)
                    } else {
                        Ok((out, input_amount))
                    },
                }
            }
        },
        Swap::BasedOutput { max_input, output_amount } => {
            if tr > MAX_BALANCE {
                Err(Error::Overflow)
            } else {
                match input_amount(cfg, output_amount, tr as Balance, pair.currency_reserve) {
                    Err(e) => Err(e),
                    Ok(paid) => {
                        let tokens = cfg.to_asset(paid as int);
                        if tokens > max_input {
                            Err(Error::SlippageExceeded)
                        } else {
                            Ok((output_amount, tokens as Balance))
                        }
                    },
                }
            }
        },
    }
}

/// Both amounts of a swap specification are non-zero.
pub open spec fn trade_amounts_nonzero(swap: Swap) -> bool {
    match swap {
        Swap::BasedInput { input_amount, min_output } => input_amount != 0 && min_output != 0,
        Swap::BasedOutput { max_input, output_amount } => output_amount != 0 && max_input != 0,
    }
}

/// Exact-input pricing: what `input_amount` buys, after the provider fee.
pub fn cp_get_output_amount(cfg: &Config, input_amount: Balance, input_reserve: Balance, output_reserve: Balance) -> (r: Result<Balance, Error>)
    requires
        cfg.wf(),
        input_reserve > 0,
        output_reserve > 0,
    ensures
        r == output_amount(*cfg, input_amount, input_reserve, output_reserve),
{
    let net = cfg.net_amount_numerator();
    let den = cfg.provider_fee_denominator;
    let with_fee = match input_amount.checked_mul(net) {
        Some(v) => v,
        None => return Err(Error::Overflow),
    };
    let numerator = match with_fee.checked_mul(output_reserve) {
        Some(v) => v,
        None => return Err(Error::Overflow),
    };
    let scaled_reserve = match input_reserve.checked_mul(den) {
        Some(v) => v,
        None => return Err(Error::Overflow),
    };
    let denominator = match scaled_reserve.checked_add(with_fee) {
        Some(v) => v,
        None => return Err(Error::Overflow),
    };
    assert(denominator > 0) by (nonlinear_arith)
        requires
            denominator == input_reserve * den + with_fee,
            input_reserve > 0,
            den > 0,
    ;
    Ok(numerator / denominator)
}

/// Exact-output pricing: what it costs to buy `output_amount`, after the
/// provider fee, rounded up by one unit in the pool's favour.
pub fn cp_get_input_amount(cfg: &Config, output_amount: Balance, input_reserve: Balance, output_reserve: Balance) -> (r: Result<Balance, Error>)
    requires
        cfg.wf(),
        input_reserve > 0,
        output_reserve > 0,
    ensures
        r == input_amount(*cfg, output_amount, input_reserve, output_reserve),
{
    if output_amount >= output_reserve {
        return Err(Error::OverLiquidityBalance);
    }
    let net = cfg.net_amount_numerator();
    let den = cfg.provider_fee_denominator;
    let partial = match input_reserve.checked_mul(output_amount) {
        Some(v) => v,
        None => return Err(Error::Overflow),
    };
    let numerator = match partial.checked_mul(den) {
        Some(v) => v,
        None => return Err(Error::Overflow),
    };
    let remaining = output_reserve - output_amount;
    let denominator = match remaining.checked_mul(net) {
        Some(v) => v,
        None => return Err(Error::Overflow),
    };
    assert(denominator > 0) by (nonlinear_arith)
        requires
            denominator == remaining * net,
            remaining > 0,
            net > 0,
    ;
    match (numerator / denominator).checked_add(1) {
        Some(v) => Ok(v),
        None => Err(Error::Overflow),
    }
}

/// Prices buying the pair's asset with currency, checking the trader's bound.
pub fn cp_compute_currency_to_asset(cfg: &Config, pair: &Pair, swap: Swap) -> (r: Result<(Balance, Balance), Error>)
    requires
        cfg.wf(),
        pair.currency_reserve > 0,
        pair.token_reserve > 0,
    ensures
        r == currency_to_asset_quote(*cfg, *pair, swap),
{
    proof {
        assert(cfg.to_currency(pair.token_reserve as int) >= pair.token_reserve) by (nonlinear_arith)
            requires
                cfg.currency_per_asset >= 1,
                pair.token_reserve > 0,
        ;
    }
    match swap {
        Swap::BasedInput { input_amount, min_output } => {
            let tr = match cfg.asset_to_currency(pair.token_reserve) {
                Some(v) => v,
                None => return Err(Error::Overflow),
            };
            let out = cp_get_output_amount(cfg, input_amount, pair.currency_reserve, tr)?;
            let tokens = cfg.currency_to_asset(out);
            if tokens < min_output {
                return Err(Error::SlippageExceeded);
            }
            Ok((input_amount, tokens))
        },
        Swap::BasedOutput { max_input, output_amount } => {
            let wanted = match cfg.asset_to_currency(output_amount) {
                Some(v) => v,
                None => return Err(Error::Overflow),
            };
            let tr = match cfg.asset_to_currency(pair.token_reserve) {
                Some(v) => v,
                None => return Err(Error::Overflow),
            };
            let paid = cp_get_input_amount(cfg, wanted, pair.currency_reserve, tr)?;
            if paid > max_input {
                return Err(Error::SlippageExceeded);
            }
            Ok((paid, output_amount))
        },
    }
}

/// Prices selling the pair's asset for currency, checking the trader's bound.
pub fn cp_get_asset_to_currency_price(cfg: &Config, pair: &Pair, swap: Swap) -> (r: Result<(Balance, Balance), Error>)
    requires
        cfg.wf(),
        pair.currency_reserve > 0,
        pair.token_reserve > 0,
    ensures
        r == asset_to_currency_quote(*cfg, *pair, swap),
{
    proof {
        assert(cfg.to_currency(pair.token_reserve as int) >= pair.token_reserve) by (nonlinear_arith)
            requires
                cfg.currency_per_asset >= 1,
                pair.token_reserve > 0,
        ;
    }
    match swap {
        Swap::BasedInput { input_amount, min_output } => {
            let sold = match cfg.asset_to_currency(input_amount) {
                Some(v) => v,
                None => return Err(Error::Overflow),
            };
            let tr = match cfg.asset_to_currency(pair.token_reserve) {
                Some(v) => v,
                None => return Err(Error::Overflow),
            };
            let out = cp_get_output_amount(cfg, sold, tr, pair.currency_reserve)?;
            if out < min_output {
                return Err(Error::SlippageExceeded);
            }
            Ok((out, input_amount))
        },
        Swap::BasedOutput { max_input, output_amount } => {
            let tr = match cfg.asset_to_currency(pair.token_reserve) {
                Some(v) => v,
                None => return Err(Error::Overflow),
            };
            let paid = cp_get_input_amount(cfg, output_amount, tr, pair.currency_reserve)?;
            let tokens = cfg.currency_to_asset(paid);
            if tokens > max_input {
                return Err(Error::SlippageExceeded);
            }
            Ok((output_amount, tokens))
        },
    }
}

/// Rejects a swap specification with a zero amount.
pub fn cp_check_trade_amount(swap: &Swap) -> (r: Result<(), Error>)
    ensures
        r is Ok <==> trade_amounts_nonzero(*swap),
        r is Err ==> r == Err::<(), Error>(Error::TradeAmountIsZero),
{
    match swap {
        Swap::BasedInput { input_amount, min_output } => {
            if *input_amount == 0 || *min_output == 0 {
                return Err(Error::TradeAmountIsZero);
            }
        },
        Swap::BasedOutput { max_input, output_amount } => {
            if *output_amount == 0 || *max_input == 0 {
                return Err(Error::TradeAmountIsZero);
            }
        },
    }
    Ok(())
}

/// Rounding down leaves less than one divisor behind.
pub proof fn lemma_floor_bounds(n: int, d: int)
    requires
        n >= 0,
        d > 0,
    ensures
        n / d >= 0,
        (n / d) * d <= n,
        n < (n / d + 1) * d,
{
    lemma_fundamental_div_mod(n, d);
    lemma_mod_pos_bound(n, d);
    assert((n / d) * d == d * (n / d)) by (nonlinear_arith);
    assert((n / d + 1) * d == (n / d) * d + d) by (nonlinear_arith);
    lemma_div_pos_is_pos(n, d);
}

/// The input quoted for an output always buys at least that output: the
/// pool is never short-paid by rounding.
pub proof fn lemma_input_for_buys_output(cfg: Config, y: int, ri: int, ro: int)
    requires
        cfg.wf(),
        ri > 0,
        ro > 0,
        0 <= y < ro,
    ensures
        output_for(cfg, input_for(cfg, y, ri, ro), ri, ro) >= y,
{
    let n = cfg.net();
    let d = cfg.provider_fee_denominator as int;
    let num = ri * y * d;
    let den = (ro - y) * n;
    assert(num >= 0 && den > 0) by (nonlinear_arith)
        requires
            ri > 0,
            y >= 0,
            d > 0,
            ro - y > 0,
            n > 0,
            num == ri * y * d,
            den == (ro - y) * n,
    ;
    lemma_floor_bounds(num, den);
    let x = input_for(cfg, y, ri, ro);
    assert(x == num / den + 1);
    // x * (ro - y) * n > ri * y * d, so x * n * ro > y * (ri * d + x * n)
    let big = x * n * ro;
    let small = ri * d + x * n;
    assert(big > y * small && small > 0 && x >= 1) by (nonlinear_arith)
        requires
            num < x * den,
            num == ri * y * d,
            den == (ro - y) * n,
            big == x * n * ro,
            small == ri * d + x * n,
            x >= 1,
            ri > 0,
            d > 0,
            n > 0,
    ;
    lemma_floor_bounds(big, small);
    assert(big / small >= y) by (nonlinear_arith)
        requires
            big > y * small,
            big < (big / small + 1) * small,
            small > 0,
    ;
}

/// The input quoted for what `x` buys exceeds `x` by at most the one unit of
/// rounding, and what `x` buys is less than the whole reserve.
pub proof fn lemma_input_for_output_within_one(cfg: Config, x: int, ri: int, ro: int)
    requires
        cfg.wf(),
        ri > 0,
        ro > 0,
        x >= 0,
    ensures
        output_for(cfg, x, ri, ro) < ro,
        input_for(cfg, output_for(cfg, x, ri, ro), ri, ro) <= x + 1,
{
    let n = cfg.net();
    let d = cfg.provider_fee_denominator as int;
    let big = x * n * ro;
    let small = ri * d + x * n;
    assert(big >= 0 && small > 0) by (nonlinear_arith)
        requires
            x >= 0,
            n > 0,
            ro > 0,
            ri > 0,
            d > 0,
            big == x * n * ro,
            small == ri * d + x * n,
    ;
    lemma_floor_bounds(big, small);
    let y = big / small;
    assert(big < small * ro) by (nonlinear_arith)
        requires
            big == x * n * ro,
            small == ri * d + x * n,
            ri > 0,
            d > 0,
            ro > 0,
    ;
    assert(y < ro) by (nonlinear_arith)
        requires
            y * small < small * ro,
            small > 0,
    ;
    assert(ri * y * d <= x * ((ro - y) * n)) by (nonlinear_arith)
        requires
            y * small <= big,
            big == x * n * ro,
            small == ri * d + x * n,
    ;
    let num = ri * y * d;
    let den = (ro - y) * n;
    assert(den > 0 && num >= 0) by (nonlinear_arith)
        requires
            ro - y > 0,
            n > 0,
            den == (ro - y) * n,
            num == ri * y * d,
            ri > 0,
            y >= 0,
            d > 0,
    ;
    lemma_floor_bounds(num, den);
    assert(num / den <= x) by (nonlinear_arith)
        requires
            (num / den) * den <= num,
            num <= x * den,
            den > 0,
    ;
}

/// Swapping `x` in and at once swapping what it bought back, against the
/// reserves the first swap left, returns no more than `x`: fees and rounding
/// never create value.
pub proof fn lemma_round_trip_is_lossy(cfg: Config, x: int, ri: int, ro: int)
    requires
        cfg.wf(),
        ri > 0,
        ro > 0,
        x >= 0,
    ensures
        ({
            let y = output_for(cfg, x, ri, ro);
            ro - y > 0 && output_for(cfg, y, ro - y, ri + x) <= x
        }),
{
    let n = cfg.net();
    let d = cfg.provider_fee_denominator as int;
    lemma_input_for_output_within_one(cfg, x, ri, ro);
    let big = x * n * ro;
    let small = ri * d + x * n;
    assert(big >= 0 && small > 0) by (nonlinear_arith)
        requires
            x >= 0,
            n > 0,
            ro > 0,
            ri > 0,
            d > 0,
            big == x * n * ro,
            small == ri * d + x * n,
    ;
    lemma_floor_bounds(big, small);
    let y = big / small;
    assert(y * ri * d <= x * n * (ro - y)) by (nonlinear_arith)
        requires
            y * small <= big,
            big == x * n * ro,
            small == ri * d + x * n,
    ;
    // y * n * ri <= x * d * (ro - y), because n <= d
    assert(y * n * ri <= x * d * (ro - y)) by (nonlinear_arith)
        requires
            y * ri * d <= x * n * (ro - y),
            0 < n <= d,
            x >= 0,
            y >= 0,
            ro - y > 0,
            ri > 0,
    ;
    let big2 = y * n * (ri + x);
    let small2 = (ro - y) * d + y * n;
    assert(big2 >= 0 && small2 > 0 && big2 <= x * small2) by (nonlinear_arith)
        requires
            y * n * ri <= x * d * (ro - y),
            big2 == y * n * (ri + x),
            small2 == (ro - y) * d + y * n,
            ro - y > 0,
            y >= 0,
            n > 0,
            d > 0,
            ri > 0,
            x >= 0,
    ;
    lemma_floor_bounds(big2, small2);
    assert(big2 / small2 <= x) by (nonlinear_arith)
        requires
            big2 < (big2 / small2 + 1) * small2,
            big2 <= x * small2,
            small2 > 0,
    ;
}

} // verus!
