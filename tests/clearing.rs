use anti_mev_amm::clearing::{calculate_cumulative, clearing_reserves, fee_discount, pro_rata, settle_plan, Clearing};
use anti_mev_amm::types::{Config, Error, Pair};

fn config() -> Config {
    Config {
        pallet_account: 999,
        provider_fee_numerator: 3,
        provider_fee_denominator: 1000,
        min_initial_currency: 1,
        min_initial_token: 1,
        fragment: 10,
        min_queue_amount: 2,
        currency_per_asset: 1,
    }
}

#[test]
fn cumulative_sum_and_overflow() {
    assert_eq!(calculate_cumulative(&vec![]), Ok(0));
    assert_eq!(calculate_cumulative(&vec![(1, 100), (2, 250), (3, 7)]), Ok(357));
    assert_eq!(calculate_cumulative(&vec![(1, u128::MAX), (2, 1)]), Err(Error::Overflow));
}

#[test]
fn fee_discount_scales_by_fee_fraction() {
    assert_eq!(fee_discount(&config(), 300), Ok(0));
    assert_eq!(fee_discount(&config(), 10_000), Ok(30));
    assert_eq!(fee_discount(&config(), u128::MAX), Err(Error::Overflow));
}

#[test]
fn clearing_without_flow_keeps_reserves() {
    assert_eq!(clearing_reserves(1_000_000_000_000, 1_000_000, 1_000_000, 0, 0, 10), Ok((1_000_000, 1_000_000)));
}

#[test]
fn clearing_single_fragment_exact() {
    // currency side first: 1_010_000, then 990_099 + 10_000, then 999_901
    assert_eq!(clearing_reserves(1_000_000_000_000, 1_000_000, 1_000_000, 10_000, 10_000, 1), Ok((999_901, 1_000_099)));
}

#[test]
fn fragmentation_bias_shrinks_with_more_fragments() {
    let k = 1_000_000_000_000u128;
    let (c1, a1) = clearing_reserves(k, 1_000_000, 1_000_000, 10_000, 10_000, 1).unwrap();
    let (c10, a10) = clearing_reserves(k, 1_000_000, 1_000_000, 1_000, 1_000, 10).unwrap();
    let bias1 = (c1 as i128 - a1 as i128).abs();
    let bias10 = (c10 as i128 - a10 as i128).abs();
    // the currency side moves first, so the currency reserve ends lower
    assert!(c1 < a1);
    assert_eq!(bias1, 198);
    assert!(bias10 < bias1);
}

#[test]
fn clearing_reserve_driven_to_zero() {
    assert_eq!(clearing_reserves(1, 0, 5, 0, 0, 1), Err(Error::Underflow));
    assert_eq!(clearing_reserves(1, 1, 1, 0, 5, 2), Err(Error::Underflow));
}

#[test]
fn clearing_overflow() {
    assert_eq!(clearing_reserves(10, u128::MAX, 1, 1, 0, 1), Err(Error::Overflow));
}

#[test]
fn settle_plan_small_batch() {
    let pair = Pair { asset_id: 100, currency_reserve: 1_000_000, token_reserve: 1_000_000, liquidity_token_id: 200 };
    assert_eq!(
        settle_plan(&config(), &pair, 300, 100),
        Ok(Clearing { temp_currency: 1_000_000, temp_asset: 1_000_000, currency_out: 300, asset_out: 100 })
    );
}

#[test]
fn settle_plan_product_overflow() {
    let pair = Pair { asset_id: 100, currency_reserve: u128::MAX / 2, token_reserve: 3, liquidity_token_id: 200 };
    assert_eq!(settle_plan(&config(), &pair, 300, 100), Err(Error::Overflow));
}

#[test]
fn pro_rata_shares_and_rounding() {
    let entries = vec![(1u64, 100u128), (2, 100), (3, 100)];
    let paid = pro_rata(&entries, 100, 300).unwrap();
    assert_eq!(paid, vec![(1, 33), (2, 33), (3, 33)]);
    let total: u128 = paid.iter().map(|e| e.1).sum();
    assert!(total <= 100 && total > 100 - 3);
}

#[test]
fn pro_rata_equal_contributions_any_position() {
    let entries = vec![(5u64, 100u128), (7, 250), (9, 100)];
    let paid = pro_rata(&entries, 1000, 450).unwrap();
    assert_eq!(paid[0].1, paid[2].1);
    assert_eq!(paid, vec![(5, 222), (7, 555), (9, 222)]);
}

#[test]
fn pro_rata_overflow() {
    assert_eq!(pro_rata(&vec![(1u64, u128::MAX)], 2, u128::MAX), Err(Error::Overflow));
}
