use anti_mev_amm::pricing::{
    cp_check_trade_amount, cp_compute_currency_to_asset, cp_get_asset_to_currency_price, cp_get_input_amount,
    cp_get_output_amount,
};
use anti_mev_amm::types::{Config, Error, Pair, Swap};

fn config() -> Config {
    Config {
        pallet_account: 999,
        provider_fee_numerator: 3,
        provider_fee_denominator: 1000,
        min_initial_currency: 1,
        min_initial_token: 1,
        fragment: 10,
        min_queue_amount: 2,
        currency_per_asset: 1,
    }
}

fn pair(currency_reserve: u128, token_reserve: u128) -> Pair {
    Pair { asset_id: 100, currency_reserve, token_reserve, liquidity_token_id: 200 }
}

#[test]
fn output_amount_exact_value() {
    assert_eq!(cp_get_output_amount(&config(), 1000, 1_000_000, 1_000_000), Ok(996));
    assert_eq!(cp_get_output_amount(&config(), 0, 1_000_000, 1_000_000), Ok(0));
}

#[test]
fn input_amount_exact_value() {
    assert_eq!(cp_get_input_amount(&config(), 996, 1_000_000, 1_000_000), Ok(1000));
    assert_eq!(cp_get_input_amount(&config(), 500, 1_000_000_000_000, 1_000_000_000_000), Ok(502));
}

#[test]
fn input_amount_rejects_whole_reserve() {
    assert_eq!(cp_get_input_amount(&config(), 1_000_000, 1_000_000, 1_000_000), Err(Error::OverLiquidityBalance));
    assert_eq!(cp_get_input_amount(&config(), 2_000_000, 1_000_000, 1_000_000), Err(Error::OverLiquidityBalance));
}

#[test]
fn output_amount_overflow() {
    assert_eq!(cp_get_output_amount(&config(), u128::MAX / 2, 1_000_000, 1_000_000), Err(Error::Overflow));
    assert_eq!(cp_get_input_amount(&config(), 10, u128::MAX / 2, 1_000_000), Err(Error::Overflow));
}

#[test]
fn quoted_input_buys_the_output() {
    let cfg = config();
    for y in [1u128, 7, 301, 996, 5_000, 250_000] {
        let x = cp_get_input_amount(&cfg, y, 1_000_000, 1_000_000).unwrap();
        let got = cp_get_output_amount(&cfg, x, 1_000_000, 1_000_000).unwrap();
        assert!(got >= y);
    }
}

#[test]
fn input_for_output_of_x_can_fall_below_x() {
    // What 303 buys (301) is quoted at 302: the input quoted for an output
    // is not always at least the amount that bought it.
    let cfg = config();
    let y = cp_get_output_amount(&cfg, 303, 1_000_000, 1_000_000).unwrap();
    assert_eq!(y, 301);
    assert_eq!(cp_get_input_amount(&cfg, y, 1_000_000, 1_000_000), Ok(302));
}

#[test]
fn round_trip_never_creates_value() {
    let cfg = config();
    for x in [1u128, 10, 303, 1000, 123_456] {
        let y = cp_get_output_amount(&cfg, x, 1_000_000, 1_000_000).unwrap();
        let z = cp_get_output_amount(&cfg, y, 1_000_000 - y, 1_000_000 + x).unwrap();
        assert!(z <= x);
    }
    let y = cp_get_output_amount(&cfg, 1000, 1_000_000, 1_000_000).unwrap();
    assert_eq!(cp_get_output_amount(&cfg, y, 1_000_000 - y, 1_001_000), Ok(994));
}

#[test]
fn compute_currency_to_asset_both_modes() {
    let cfg = config();
    let p = pair(1_000_000, 1_000_000);
    assert_eq!(cp_compute_currency_to_asset(&cfg, &p, Swap::BasedInput { input_amount: 1000, min_output: 1 }), Ok((1000, 996)));
    assert_eq!(cp_compute_currency_to_asset(&cfg, &p, Swap::BasedOutput { max_input: 2000, output_amount: 996 }), Ok((1000, 996)));
    assert_eq!(
        cp_compute_currency_to_asset(&cfg, &p, Swap::BasedInput { input_amount: 1000, min_output: 997 }),
        Err(Error::SlippageExceeded)
    );
    assert_eq!(
        cp_compute_currency_to_asset(&cfg, &p, Swap::BasedOutput { max_input: 999, output_amount: 996 }),
        Err(Error::SlippageExceeded)
    );
}

#[test]
fn compute_asset_to_currency_both_modes() {
    let cfg = config();
    let p = pair(1_000_000, 1_000_000);
    assert_eq!(cp_get_asset_to_currency_price(&cfg, &p, Swap::BasedInput { input_amount: 1000, min_output: 996 }), Ok((996, 1000)));
    assert_eq!(cp_get_asset_to_currency_price(&cfg, &p, Swap::BasedOutput { max_input: 1000, output_amount: 996 }), Ok((996, 1000)));
    assert_eq!(
        cp_get_asset_to_currency_price(&cfg, &p, Swap::BasedOutput { max_input: 999, output_amount: 996 }),
        Err(Error::SlippageExceeded)
    );
}

#[test]
fn conversion_rate_scales_the_asset_side() {
    let mut cfg = config();
    cfg.currency_per_asset = 10;
    // 100_000 tokens are worth 1_000_000 currency units.
    let p = pair(1_000_000, 100_000);
    assert_eq!(cp_compute_currency_to_asset(&cfg, &p, Swap::BasedInput { input_amount: 1000, min_output: 1 }), Ok((1000, 99)));
    assert_eq!(cp_get_asset_to_currency_price(&cfg, &p, Swap::BasedInput { input_amount: 100, min_output: 1 }), Ok((996, 100)));
}

#[test]
fn zero_trade_amounts_rejected() {
    assert_eq!(cp_check_trade_amount(&Swap::BasedInput { input_amount: 0, min_output: 1 }), Err(Error::TradeAmountIsZero));
    assert_eq!(cp_check_trade_amount(&Swap::BasedInput { input_amount: 1, min_output: 0 }), Err(Error::TradeAmountIsZero));
    assert_eq!(cp_check_trade_amount(&Swap::BasedOutput { max_input: 0, output_amount: 1 }), Err(Error::TradeAmountIsZero));
    assert_eq!(cp_check_trade_amount(&Swap::BasedOutput { max_input: 1, output_amount: 0 }), Err(Error::TradeAmountIsZero));
    assert_eq!(cp_check_trade_amount(&Swap::BasedOutput { max_input: 1, output_amount: 1 }), Ok(()));
}
