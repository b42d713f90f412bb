use anti_mev_amm::pallet::{GenesisConfig, Pallet};
use anti_mev_amm::types::{Config, Error, Event};

const ACCOUNT_ALICE: u64 = 0;
const ACCOUNT_BOB: u64 = 1;
const ACCOUNT_CHARLIE: u64 = 2;
const ACCOUNT_DAVE: u64 = 3;
const ACCOUNT_ERWIN: u64 = 4;
const ACCOUNT_ATTACKER: u64 = 5;
const PALLET: u64 = 999;

const INIT_BALANCE: u128 = 1_000_000_000_000_000;
const INIT_LIQUIDITY: u128 = 1_000_000_000_000;

const ASSET_A: u32 = 100;
const ASSET_B: u32 = 101;
const LIQ_TOKEN_A: u32 = 200;

fn config(min_queue_amount: u32) -> Config {
    Config {
        pallet_account: PALLET,
        provider_fee_numerator: 3,
        provider_fee_denominator: 1000,
        min_initial_currency: 1,
        min_initial_token: 1,
        fragment: 10,
        min_queue_amount,
        currency_per_asset: 1,
    }
}

/// Six funded accounts, two assets, and the pair of `ASSET_A` with
/// `liquidity` of each side provided by Alice, at block 1; settlement needs
/// two intents on each side.
fn setup(liquidity: u128) -> Pallet {
    setup_with(liquidity, 2)
}

fn setup_with(liquidity: u128, min_queue_amount: u32) -> Pallet {
    let mut p = Pallet::new(config(min_queue_amount));
    for who in [ACCOUNT_ALICE, ACCOUNT_BOB, ACCOUNT_CHARLIE, ACCOUNT_DAVE, ACCOUNT_ERWIN, ACCOUNT_ATTACKER] {
        p.set_free_balance(who, INIT_BALANCE);
    }
    for asset in [ASSET_A, ASSET_B] {
        p.create_asset(asset).unwrap();
        for who in [ACCOUNT_ALICE, ACCOUNT_BOB, ACCOUNT_ATTACKER] {
            p.mint_asset(asset, who, INIT_BALANCE).unwrap();
        }
    }
    let genesis = GenesisConfig { pairs: vec![(ACCOUNT_ALICE, ASSET_A, LIQ_TOKEN_A, liquidity, liquidity)] };
    genesis.build(&mut p).unwrap();
    p.set_block_number(1);
    p
}

#[test]
fn should_demo_full_flow_anti_mev() {
    // one intent on each side is enough to settle here
    let mut p = setup_with(INIT_LIQUIDITY, 1);
    let amount_in = 100;
    let deadline = p.block_number() + 1;
    assert_eq!(p.add_swap_currency_for_asset(ACCOUNT_ATTACKER, ASSET_A, amount_in, deadline), Ok(()));
    assert_eq!(p.add_swap_currency_for_asset(ACCOUNT_BOB, ASSET_A, amount_in, deadline), Ok(()));
    assert_eq!(p.add_swap_currency_for_asset(ACCOUNT_ALICE, ASSET_A, amount_in, deadline), Ok(()));
    assert_eq!(p.add_swap_asset_for_currency(ACCOUNT_ATTACKER, ASSET_A, amount_in, deadline), Ok(()));
    assert_eq!(p.settle_and_distribute(ASSET_A), Ok(()));
}

#[test]
fn three_buyers_one_seller_scenario() {
    let mut p = setup_with(1_000_000, 1);
    let buyers = [ACCOUNT_BOB, ACCOUNT_CHARLIE, ACCOUNT_DAVE];
    for who in buyers {
        p.add_swap_currency_for_asset(who, ASSET_A, 100, 10).unwrap();
    }
    p.add_swap_asset_for_currency(ACCOUNT_ATTACKER, ASSET_A, 100, 10).unwrap();
    let asset_before: Vec<u128> = buyers.iter().map(|w| p.asset_balance(ASSET_A, *w)).collect();
    let seller_currency = p.free_balance(ACCOUNT_ATTACKER);
    assert_eq!(p.settle_and_distribute(ASSET_A), Ok(()));
    let received: Vec<u128> = buyers.iter().enumerate().map(|(i, w)| p.asset_balance(ASSET_A, *w) - asset_before[i]).collect();
    assert_eq!(received, vec![33, 33, 33]);
    let currency_paid_out = p.free_balance(ACCOUNT_ATTACKER) - seller_currency;
    assert_eq!(currency_paid_out, 300);
    assert!(received.iter().sum::<u128>() <= 100);
    assert!(currency_paid_out <= 300);
    assert_eq!(p.events().last(), Some(&Event::DistributeSettlement(ASSET_A, 300, 100)));
    assert!(p.events().contains(&Event::SwappedCurrencyForAsset(ASSET_A, ACCOUNT_CHARLIE, 100, 33)));
    assert!(p.events().contains(&Event::SwappedAssetForCurrency(ASSET_A, ACCOUNT_ATTACKER, 300, 100)));
    let pair = p.get_pair(ASSET_A).unwrap();
    assert_eq!((pair.currency_reserve, pair.token_reserve), (1_000_000, 1_000_000));
}

#[test]
fn equal_intents_first_and_last_same_payout() {
    let mut p = setup(1_000_000);
    p.add_swap_currency_for_asset(ACCOUNT_BOB, ASSET_A, 100, 10).unwrap();
    p.add_swap_currency_for_asset(ACCOUNT_CHARLIE, ASSET_A, 250, 10).unwrap();
    p.add_swap_currency_for_asset(ACCOUNT_DAVE, ASSET_A, 100, 10).unwrap();
    p.add_swap_asset_for_currency(ACCOUNT_ATTACKER, ASSET_A, 300, 10).unwrap();
    p.add_swap_asset_for_currency(ACCOUNT_ALICE, ASSET_A, 300, 10).unwrap();
    assert_eq!(p.settle_and_distribute(ASSET_A), Ok(()));
    let bob = p.asset_balance(ASSET_A, ACCOUNT_BOB) - INIT_BALANCE;
    let dave = p.asset_balance(ASSET_A, ACCOUNT_DAVE);
    assert_eq!(bob, dave);
    assert!(bob > 0);
}

#[test]
fn repeated_intents_weighted_by_amount() {
    let mut p = setup(1_000_000);
    p.add_swap_currency_for_asset(ACCOUNT_BOB, ASSET_A, 100, 10).unwrap();
    p.add_swap_currency_for_asset(ACCOUNT_BOB, ASSET_A, 100, 10).unwrap();
    p.add_swap_currency_for_asset(ACCOUNT_DAVE, ASSET_A, 200, 10).unwrap();
    assert_eq!(p.get_pair_currency_cumulative(ASSET_A, ACCOUNT_BOB), 200);
    assert_eq!(p.get_pair_currency_queue(ASSET_A), Ok(vec![ACCOUNT_BOB, ACCOUNT_BOB, ACCOUNT_DAVE]));
    p.add_swap_asset_for_currency(ACCOUNT_ATTACKER, ASSET_A, 100, 10).unwrap();
    p.add_swap_asset_for_currency(ACCOUNT_ALICE, ASSET_A, 100, 10).unwrap();
    assert_eq!(p.settle_and_distribute(ASSET_A), Ok(()));
    assert_eq!(p.asset_balance(ASSET_A, ACCOUNT_BOB) - INIT_BALANCE, p.asset_balance(ASSET_A, ACCOUNT_DAVE));
}

#[test]
fn settle_below_threshold_fails_and_keeps_state() {
    let mut p = setup(1_000_000);
    p.add_swap_currency_for_asset(ACCOUNT_BOB, ASSET_A, 100, 10).unwrap();
    p.add_swap_currency_for_asset(ACCOUNT_DAVE, ASSET_A, 100, 10).unwrap();
    p.add_swap_asset_for_currency(ACCOUNT_ATTACKER, ASSET_A, 100, 10).unwrap();
    let events = p.events().len();
    assert_eq!(p.settle_and_distribute(ASSET_A), Err(Error::QueueTooSmall));
    assert_eq!(p.get_pair_currency_queue(ASSET_A), Ok(vec![ACCOUNT_BOB, ACCOUNT_DAVE]));
    assert_eq!(p.get_pair_asset_queue(ASSET_A), Ok(vec![ACCOUNT_ATTACKER]));
    assert_eq!(p.get_pair_asset_cumulative(ASSET_A, ACCOUNT_ATTACKER), 100);
    assert_eq!(p.free_balance(ACCOUNT_BOB), INIT_BALANCE - 100);
    assert_eq!(p.events().len(), events);
}

#[test]
fn settle_unknown_pair() {
    let mut p = setup(1_000_000);
    assert_eq!(p.settle_and_distribute(ASSET_B), Err(Error::PairNotFound));
}

#[test]
fn settlement_empties_queues_and_cumulative() {
    let mut p = setup(1_000_000);
    p.add_swap_currency_for_asset(ACCOUNT_BOB, ASSET_A, 100, 10).unwrap();
    p.add_swap_currency_for_asset(ACCOUNT_DAVE, ASSET_A, 100, 10).unwrap();
    p.add_swap_asset_for_currency(ACCOUNT_ATTACKER, ASSET_A, 100, 10).unwrap();
    p.add_swap_asset_for_currency(ACCOUNT_ALICE, ASSET_A, 100, 10).unwrap();
    assert_eq!(p.settle_and_distribute(ASSET_A), Ok(()));
    assert_eq!(p.get_pair_currency_queue(ASSET_A), Ok(vec![]));
    assert_eq!(p.get_pair_asset_queue(ASSET_A), Ok(vec![]));
    for who in [ACCOUNT_BOB, ACCOUNT_DAVE, ACCOUNT_ATTACKER, ACCOUNT_ALICE] {
        assert_eq!(p.get_pair_currency_cumulative(ASSET_A, who), 0);
        assert_eq!(p.get_pair_asset_cumulative(ASSET_A, who), 0);
    }
    assert_eq!(p.settle_and_distribute(ASSET_A), Err(Error::QueueTooSmall));
}

fn queued_batch() -> Pallet {
    let mut p = setup(1_000_000);
    for who in [ACCOUNT_BOB, ACCOUNT_CHARLIE, ACCOUNT_DAVE] {
        p.add_swap_currency_for_asset(who, ASSET_A, 100, 10).unwrap();
    }
    p.add_swap_asset_for_currency(ACCOUNT_ATTACKER, ASSET_A, 100, 10).unwrap();
    p.add_swap_asset_for_currency(ACCOUNT_ALICE, ASSET_A, 100, 10).unwrap();
    p
}

#[test]
fn currency_leak_detected_and_nothing_changes() {
    let mut p = queued_batch();
    // custody holds 1_000_300; settlement pays 300 and must keep 1_000_000
    assert_eq!(p.free_balance(PALLET), 1_000_300);
    p.set_free_balance(PALLET, 1_000_299);
    assert_eq!(p.settle_and_distribute(ASSET_A), Err(Error::CurrencyLeak));
    assert_eq!(p.get_pair_currency_queue(ASSET_A), Ok(vec![ACCOUNT_BOB, ACCOUNT_CHARLIE, ACCOUNT_DAVE]));
    assert_eq!(p.get_pair_currency_cumulative(ASSET_A, ACCOUNT_BOB), 100);
    assert_eq!(p.get_pair_asset_cumulative(ASSET_A, ACCOUNT_ALICE), 100);
    assert_eq!(p.free_balance(PALLET), 1_000_299);
    assert_eq!(p.asset_balance(ASSET_A, ACCOUNT_BOB), INIT_BALANCE);
}

#[test]
fn asset_leak_detected_and_nothing_changes() {
    let mut p = queued_batch();
    // custody holds 1_000_200 tokens; settlement pays 198 and must keep 1_000_000
    assert_eq!(p.asset_balance(ASSET_A, PALLET), 1_000_200);
    p.transfer_asset(ASSET_A, PALLET, ACCOUNT_ERWIN, 102).unwrap();
    assert_eq!(p.settle_and_distribute(ASSET_A), Err(Error::AssetLeak));
    assert_eq!(p.get_pair_asset_queue(ASSET_A), Ok(vec![ACCOUNT_ATTACKER, ACCOUNT_ALICE]));
    assert_eq!(p.get_pair_currency_cumulative(ASSET_A, ACCOUNT_DAVE), 100);
    assert_eq!(p.asset_balance(ASSET_A, PALLET), 1_000_098);
}

#[test]
fn custody_short_of_payouts() {
    let mut p = queued_batch();
    p.set_free_balance(PALLET, 10);
    assert_eq!(p.settle_and_distribute(ASSET_A), Err(Error::BalanceTooLow));
    assert_eq!(p.free_balance(PALLET), 10);
}

#[test]
fn enqueue_errors() {
    let mut p = setup(1_000_000);
    p.set_block_number(20);
    assert_eq!(p.add_swap_currency_for_asset(ACCOUNT_BOB, ASSET_A, 100, 19), Err(Error::DeadlinePassed));
    assert_eq!(p.add_swap_currency_for_asset(ACCOUNT_BOB, ASSET_A, 0, 20), Err(Error::TradeAmountIsZero));
    assert_eq!(p.add_swap_currency_for_asset(ACCOUNT_BOB, ASSET_A, INIT_BALANCE + 1, 20), Err(Error::BalanceTooLow));
    assert_eq!(p.add_swap_currency_for_asset(ACCOUNT_BOB, ASSET_B, 100, 20), Err(Error::PairNotFound));
    assert_eq!(p.add_swap_asset_for_currency(ACCOUNT_BOB, 77, 100, 20), Err(Error::AssetNotFound));
    assert_eq!(p.add_swap_asset_for_currency(ACCOUNT_CHARLIE, ASSET_A, 100, 20), Err(Error::NotEnoughTokens));
    p.set_free_balance(ACCOUNT_ERWIN, u128::MAX);
    assert_eq!(p.add_swap_currency_for_asset(ACCOUNT_ERWIN, ASSET_A, u128::MAX / 2, 20), Err(Error::Overflow));
    assert_eq!(p.get_pair_currency_queue(ASSET_A), Ok(vec![]));
}

#[test]
fn enqueue_escrows_and_records() {
    let mut p = setup(1_000_000);
    assert_eq!(p.add_swap_currency_for_asset(ACCOUNT_BOB, ASSET_A, 100, 1), Ok(()));
    assert_eq!(p.free_balance(ACCOUNT_BOB), INIT_BALANCE - 100);
    assert_eq!(p.free_balance(PALLET), 1_000_100);
    assert_eq!(p.get_pair_currency_cumulative(ASSET_A, ACCOUNT_BOB), 100);
    assert_eq!(p.events().last(), Some(&Event::AddedSwapCurrencyForAsset(ASSET_A, ACCOUNT_BOB, 100)));
    assert_eq!(p.add_swap_asset_for_currency(ACCOUNT_BOB, ASSET_A, 40, 1), Ok(()));
    assert_eq!(p.asset_balance(ASSET_A, ACCOUNT_BOB), INIT_BALANCE - 40);
    assert_eq!(p.asset_balance(ASSET_A, PALLET), 1_000_040);
    assert_eq!(p.get_pair_asset_cumulative(ASSET_A, ACCOUNT_BOB), 40);
}
