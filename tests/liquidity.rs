use anti_mev_amm::liquidity::compute_join;
use anti_mev_amm::pallet::{GenesisConfig, Pallet};
use anti_mev_amm::types::{Config, Error, Event, Pair, Swap};

const ALICE: u64 = 0;
const BOB: u64 = 1;
const CAROL: u64 = 2;
const PALLET: u64 = 999;
const ASSET_A: u32 = 100;
const ASSET_B: u32 = 101;
const LIQ_A: u32 = 200;
const LIQ_B: u32 = 201;
const FUNDS: u128 = 1_000_000_000_000_000;

fn config() -> Config {
    Config {
        pallet_account: PALLET,
        provider_fee_numerator: 3,
        provider_fee_denominator: 1000,
        min_initial_currency: 10,
        min_initial_token: 10,
        fragment: 10,
        min_queue_amount: 2,
        currency_per_asset: 1,
    }
}

fn funded() -> Pallet {
    let mut p = Pallet::new(config());
    for who in [ALICE, BOB, CAROL] {
        p.set_free_balance(who, FUNDS);
    }
    for asset in [ASSET_A, ASSET_B] {
        p.create_asset(asset).unwrap();
        for who in [ALICE, BOB] {
            p.mint_asset(asset, who, FUNDS).unwrap();
        }
    }
    p
}

#[test]
fn create_pair_moves_liquidity_and_mints() {
    let mut p = funded();
    assert_eq!(p.create_pair(ALICE, ASSET_A, LIQ_A, 3_000_000, 2_000_000), Ok(()));
    assert_eq!(
        p.get_pair(ASSET_A),
        Ok(Pair { asset_id: ASSET_A, currency_reserve: 3_000_000, token_reserve: 2_000_000, liquidity_token_id: LIQ_A })
    );
    assert_eq!(p.free_balance(ALICE), FUNDS - 3_000_000);
    assert_eq!(p.free_balance(PALLET), 3_000_000);
    assert_eq!(p.asset_balance(ASSET_A, PALLET), 2_000_000);
    assert_eq!(p.asset_balance(LIQ_A, ALICE), 3_000_000);
    assert_eq!(p.total_issuance(LIQ_A), 3_000_000);
    assert_eq!(p.get_pair_currency_queue(ASSET_A), Ok(vec![]));
    assert_eq!(p.events().len(), 2);
    assert_eq!(p.events()[0], Event::PairCreated(ASSET_A, LIQ_A));
}

#[test]
fn create_pair_errors() {
    let mut p = funded();
    assert_eq!(p.create_pair(ALICE, ASSET_A, LIQ_A, 9, 100), Err(Error::CurrencyAmountTooLow));
    assert_eq!(p.create_pair(ALICE, ASSET_A, LIQ_A, 100, 9), Err(Error::TokenAmountTooLow));
    assert_eq!(p.create_pair(ALICE, 55, LIQ_A, 100, 100), Err(Error::AssetNotFound));
    assert_eq!(p.create_pair(ALICE, ASSET_A, ASSET_B, 100, 100), Err(Error::TokenIdAlreadyInUse));
    assert_eq!(p.create_pair(CAROL, ASSET_A, LIQ_A, 100, 100), Err(Error::NotEnoughTokens));
    assert_eq!(p.create_pair(ALICE, ASSET_A, LIQ_A, FUNDS + 1, 100), Err(Error::BalanceTooLow));
    assert!(p.get_pair(ASSET_A).is_err());
    assert_eq!(p.total_issuance(LIQ_A), 0);
    assert_eq!(p.create_pair(ALICE, ASSET_A, LIQ_A, 100, 100), Ok(()));
    assert_eq!(p.create_pair(BOB, ASSET_A, LIQ_B, 100, 100), Err(Error::PairAlreadyExists));
}

#[test]
fn genesis_builds_each_pair() {
    let mut p = funded();
    let genesis = GenesisConfig { pairs: vec![(ALICE, ASSET_A, LIQ_A, 1_000, 1_000), (BOB, ASSET_B, LIQ_B, 500, 700)] };
    assert_eq!(genesis.build(&mut p), Ok(()));
    assert_eq!(p.get_pair(ASSET_B).unwrap().token_reserve, 700);
    assert_eq!(p.asset_balance(LIQ_B, BOB), 500);
    let again = GenesisConfig { pairs: vec![(ALICE, ASSET_A, 300, 1_000, 1_000)] };
    assert_eq!(again.build(&mut p), Err(Error::PairAlreadyExists));
    assert_eq!(GenesisConfig::default().build(&mut p), Ok(()));
}

#[test]
fn join_amounts_round_down_then_add_one_token() {
    let pair = Pair { asset_id: ASSET_A, currency_reserve: 3_000_000, token_reserve: 2_000_000, liquidity_token_id: LIQ_A };
    assert_eq!(compute_join(&config(), &pair, 1000, 3_000_000), Ok((667, 999)));
    let even = Pair { asset_id: ASSET_A, currency_reserve: 1_000_000, token_reserve: 1_000_000, liquidity_token_id: LIQ_A };
    assert_eq!(compute_join(&config(), &even, 1000, 1_000_000), Ok((1001, 1000)));
}

#[test]
fn add_liquidity_proportional() {
    let mut p = funded();
    p.create_pair(ALICE, ASSET_A, LIQ_A, 3_000_000, 2_000_000).unwrap();
    assert_eq!(p.add_liquidity(BOB, ASSET_A, 1000, 999, 667, 5), Ok(()));
    assert_eq!(p.asset_balance(LIQ_A, BOB), 999);
    assert_eq!(p.total_issuance(LIQ_A), 3_000_999);
    assert_eq!(p.asset_balance(ASSET_A, BOB), FUNDS - 667);
    assert_eq!(p.free_balance(BOB), FUNDS - 1000);
    let pair = p.get_pair(ASSET_A).unwrap();
    assert_eq!((pair.currency_reserve, pair.token_reserve), (3_001_000, 2_000_667));
    assert_eq!(p.events().last(), Some(&Event::LiquidityAdded(BOB, ASSET_A, 1000, 667, 999)));
}

#[test]
fn add_liquidity_errors() {
    let mut p = funded();
    p.create_pair(ALICE, ASSET_A, LIQ_A, 3_000_000, 2_000_000).unwrap();
    p.set_block_number(7);
    assert_eq!(p.add_liquidity(BOB, ASSET_A, 1000, 1, 1000, 6), Err(Error::DeadlinePassed));
    assert_eq!(p.add_liquidity(BOB, ASSET_A, 0, 1, 1000, 7), Err(Error::CurrencyAmountIsZero));
    assert_eq!(p.add_liquidity(BOB, ASSET_A, 1000, 1, 0, 7), Err(Error::MaxTokensIsZero));
    assert_eq!(p.add_liquidity(BOB, ASSET_A, 1000, 0, 1000, 7), Err(Error::MinLiquidityIsZero));
    assert_eq!(p.add_liquidity(BOB, ASSET_A, FUNDS + 1, 1, 1000, 7), Err(Error::BalanceTooLow));
    assert_eq!(p.add_liquidity(CAROL, ASSET_A, 1000, 1, 1000, 7), Err(Error::NotEnoughTokens));
    assert_eq!(p.add_liquidity(BOB, ASSET_B, 1000, 1, 1000, 7), Err(Error::PairNotFound));
    assert_eq!(p.add_liquidity(BOB, ASSET_A, 1000, 1, 666, 7), Err(Error::MaxTokensTooLow));
    assert_eq!(p.add_liquidity(BOB, ASSET_A, 1000, 1000, 1000, 7), Err(Error::MinLiquidityTooHigh));
    assert_eq!(p.asset_balance(LIQ_A, BOB), 0);
}

#[test]
fn direct_buy_and_sell() {
    let mut p = funded();
    p.create_pair(ALICE, ASSET_A, LIQ_A, 1_000_000, 1_000_000).unwrap();
    assert_eq!(p.cp_swap_currency_for_asset(BOB, ASSET_A, Swap::BasedInput { input_amount: 1000, min_output: 900 }, 0), Ok(()));
    assert_eq!(p.free_balance(BOB), FUNDS - 1000);
    assert_eq!(p.asset_balance(ASSET_A, BOB), FUNDS + 996);
    let pair = p.get_pair(ASSET_A).unwrap();
    assert_eq!((pair.currency_reserve, pair.token_reserve), (1_001_000, 999_004));
    assert_eq!(p.cp_swap_asset_for_currency(BOB, ASSET_A, Swap::BasedInput { input_amount: 996, min_output: 1 }, 0), Ok(()));
    assert_eq!(p.free_balance(BOB), FUNDS - 1000 + 994);
    let pair = p.get_pair(ASSET_A).unwrap();
    assert_eq!((pair.currency_reserve, pair.token_reserve), (1_000_006, 1_000_000));
    assert_eq!(p.events().last(), Some(&Event::SwappedAssetForCurrency(ASSET_A, BOB, 994, 996)));
}

#[test]
fn direct_swap_errors() {
    let mut p = funded();
    p.create_pair(ALICE, ASSET_A, LIQ_A, 1_000_000, 1_000_000).unwrap();
    p.set_block_number(3);
    let buy = Swap::BasedInput { input_amount: 1000, min_output: 1 };
    assert_eq!(p.cp_swap_currency_for_asset(BOB, ASSET_A, buy, 2), Err(Error::DeadlinePassed));
    assert_eq!(p.cp_swap_currency_for_asset(BOB, ASSET_A, Swap::BasedInput { input_amount: 0, min_output: 1 }, 3), Err(Error::TradeAmountIsZero));
    assert_eq!(p.cp_swap_currency_for_asset(BOB, ASSET_B, buy, 3), Err(Error::PairNotFound));
    assert_eq!(p.cp_swap_currency_for_asset(BOB, ASSET_A, Swap::BasedInput { input_amount: 1000, min_output: 997 }, 3), Err(Error::SlippageExceeded));
    assert_eq!(
        p.cp_swap_currency_for_asset(BOB, ASSET_A, Swap::BasedOutput { max_input: FUNDS, output_amount: 1_000_000 }, 3),
        Err(Error::OverLiquidityBalance)
    );
    p.set_free_balance(CAROL, 10);
    assert_eq!(p.cp_swap_currency_for_asset(CAROL, ASSET_A, buy, 3), Err(Error::BalanceTooLow));
    assert_eq!(p.cp_swap_asset_for_currency(CAROL, ASSET_A, buy, 3), Err(Error::NotEnoughTokens));
    assert_eq!(p.cp_swap_currency_for_asset(BOB, ASSET_A, Swap::BasedOutput { max_input: 2000, output_amount: 996 }, 3), Ok(()));
    assert_eq!(p.free_balance(BOB), FUNDS - 1000);
}
