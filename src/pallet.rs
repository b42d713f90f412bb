use vstd::prelude::*;
use crate::types::{Config, Error, Event, Pair, AccountId, AssetId, Balance, MAX_BALANCE};
use crate::ledger::{Balances, Assets, WithdrawConsequence, pay_all, transfer_result, keys_distinct,
    lemma_pay_all_credits};
use crate::pricing::{output_amount, cp_get_output_amount, currency_to_asset_quote, asset_to_currency_quote,
    trade_amounts_nonzero, cp_check_trade_amount, cp_compute_currency_to_asset, cp_get_asset_to_currency_price};
use crate::types::Swap;
use crate::liquidity::{join_amounts, compute_join};
use crate::clearing::{Clearing, total_of, share, shares, shares_total, settlement_plan, calculate_cumulative, settle_plan,
    pro_rata, lemma_payouts_sum};

verus! {

/// A pair together with the intents queued against it since its last
/// settlement. Each queue lists the accounts in the order they enqueued (an
/// account once per intent); each cumulative ledger holds, per account, the
/// sum escrowed since the last settlement, in order of first intent.
pub struct PairState {
    pub pair: Pair,
    pub currency_queue: Vec<AccountId>,
    pub asset_queue: Vec<AccountId>,
    pub currency_cumulative: Balances,
    pub asset_cumulative: Balances,
}

impl PairState {
    /// Both reserves are positive, the liquidity token is not the traded
    /// asset and the ledgers are well formed.
    pub open spec fn wf(&self) -> bool {
        &&& self.pair.liquidity_token_id != self.pair.asset_id
        &&& self.pair.currency_reserve > 0
        &&& self.pair.token_reserve > 0
        &&& self.currency_cumulative.wf()
        &&& self.asset_cumulative.wf()
    }
}

/// The state of the market maker: its pairs with their queued intents, the
/// currency ledger and the asset registry, and the events it recorded.
pub struct Pallet {
    config: Config,
    block_number: u64,
    pairs: Vec<PairState>,
    currency: Balances,
    assets: Assets,
    events: Vec<Event>,
}

/// What settling the batch `ps` does to the currency balances `currency` and
/// to the asset holders `holders`: the clearing, then the new balances.
///
/// Each account of a side's cumulative ledger is paid once, pro rata to its
/// cumulative amount: an account that enqueued several times is weighted by
/// what it escrowed, not by how often it stands in the queue.
pub open spec fn settlement(cfg: Config, ps: PairState, currency: Map<AccountId, Balance>, holders: Map<AccountId, Balance>) -> Result<(Clearing, Map<AccountId, Balance>, Map<AccountId, Balance>), Error> {
    let cc = ps.currency_cumulative.entries();
    let ac = ps.asset_cumulative.entries();
    if total_of(cc) > MAX_BALANCE || total_of(ac) > MAX_BALANCE {
        Err(Error::Overflow)
    } else {
        match settlement_plan(cfg, ps.pair, total_of(cc), total_of(ac)) {
            Err(e) => Err(e),
            Ok(cl) => {
                let new_tokens = cfg.to_asset(cl.temp_asset as int);
                let asset_out = cfg.to_asset(cl.asset_out as int);
                if cl.temp_currency == 0 || new_tokens == 0 {
                    Err(Error::Underflow)
                } else if exists|i: int| 0 <= i < cc.len() && asset_out * #[trigger] cc[i].1 > MAX_BALANCE {
                    Err(Error::Overflow)
                } else if exists|i: int| 0 <= i < ac.len() && cl.currency_out * #[trigger] ac[i].1 > MAX_BALANCE {
                    Err(Error::Overflow)
                } else {
                    match pay_all(holders, cfg.pallet_account, shares(cc, asset_out, total_of(cc)), Error::NotEnoughTokens) {
                        Err(e) => Err(e),
                        Ok(h) => match pay_all(currency, cfg.pallet_account, shares(ac, cl.currency_out as int, total_of(ac)), Error::BalanceTooLow) {
                            Err(e) => Err(e),
                            Ok(c) => if c[cfg.pallet_account] < cl.temp_currency {
                                Err(Error::CurrencyLeak)
                            } else if h[cfg.pallet_account] < new_tokens {
                                Err(Error::AssetLeak)
                            } else {
                                Ok((cl, c, h))
                            },
                        },
                    }
                }
            },
        }
    }
}

/// The currency balances after `caller` escrows `amount` for a
/// currency-for-asset intent on the pair `id`, or why it is refused.
pub open spec fn currency_intent(p: Pallet, caller: AccountId, id: AssetId, amount: Balance, deadline: u64) -> Result<Map<AccountId, Balance>, Error> {
    let cfg = p.config();
    if deadline < p.now() {
        Err(Error::DeadlinePassed)
    } else if amount == 0 {
        Err(Error::TradeAmountIsZero)
    } else if p.currency()[caller] < amount {
        Err(Error::BalanceTooLow)
    } else if !p.has_pair(id) {
        Err(Error::PairNotFound)
    } else {
        let ps = p.batch(id);
        let tr = cfg.to_currency(ps.pair.token_reserve as int);
        if tr > MAX_BALANCE {
            Err(Error::Overflow)
        } else {
            match output_amount(cfg, amount, ps.pair.currency_reserve, tr as Balance) {
                Err(e) => Err(e),
                Ok(_) => if ps.currency_cumulative@[caller] + amount > MAX_BALANCE {
                    Err(Error::Overflow)
                } else {
                    transfer_result(p.currency(), caller, cfg.pallet_account, amount, Error::BalanceTooLow)
                },
            }
        }
    }
}

/// The holders of the asset `id` after `caller` escrows `amount` of it for
/// an asset-for-currency intent, or why it is refused.
pub open spec fn asset_intent(p: Pallet, caller: AccountId, id: AssetId, amount: Balance, deadline: u64) -> Result<Map<AccountId, Balance>, Error> {
    let cfg = p.config();
    if deadline < p.now() {
        Err(Error::DeadlinePassed)
    } else if amount == 0 {
        Err(Error::TradeAmountIsZero)
    } else if !p.registry().has(id) {
        Err(Error::AssetNotFound)
    } else if p.registry().balance_of(id, caller) < amount {
        Err(Error::NotEnoughTokens)
    } else if !p.has_pair(id) {
        Err(Error::PairNotFound)
    } else {
        let ps = p.batch(id);
        let sold = cfg.to_currency(amount as int);
        let tr = cfg.to_currency(ps.pair.token_reserve as int);
        if sold > MAX_BALANCE || tr > MAX_BALANCE {
            Err(Error::Overflow)
        } else {
            match output_amount(cfg, sold as Balance, tr as Balance, ps.pair.currency_reserve) {
                Err(e) => Err(e),
                Ok(_) => if ps.asset_cumulative@[caller] + amount > MAX_BALANCE {
                    Err(Error::Overflow)
                } else {
                    transfer_result(p.registry().holders(id), caller, cfg.pallet_account, amount, Error::NotEnoughTokens)
                },
            }
        }
    }
}

/// A pair with new reserves.
pub open spec fn with_reserves(pair: Pair, currency_reserve: int, token_reserve: int) -> Pair {
    Pair {
        asset_id: pair.asset_id,
        currency_reserve: currency_reserve as Balance,
        token_reserve: token_reserve as Balance,
        liquidity_token_id: pair.liquidity_token_id,
    }
}

/// A direct purchase of the asset `id` with currency by `caller`: the new
/// currency balances, holders of the asset and pair, or why it is refused.
pub open spec fn direct_buy(p: Pallet, caller: AccountId, id: AssetId, swap: Swap, deadline: u64) -> Result<(Map<AccountId, Balance>, Map<AccountId, Balance>, Pair), Error> {
    let cfg = p.config();
    if deadline < p.now() {
        Err(Error::DeadlinePassed)
    } else if !trade_amounts_nonzero(swap) {
        Err(Error::TradeAmountIsZero)
    } else if !p.has_pair(id) {
        Err(Error::PairNotFound)
    } else {
        let pair = p.batch(id).pair;
        match currency_to_asset_quote(cfg, pair, swap) {
            Err(e) => Err(e),
            Ok((paid, bought)) => if p.currency()[caller] < paid {
                Err(Error::BalanceTooLow)
            } else if bought >= pair.token_reserve {
                Err(Error::OverLiquidityBalance)
            } else if pair.currency_reserve + paid > MAX_BALANCE {
                Err(Error::Overflow)
            } else {
                match transfer_result(p.currency(), caller, cfg.pallet_account, paid, Error::BalanceTooLow) {
                    Err(e) => Err(e),
                    Ok(c) => match transfer_result(p.registry().holders(id), cfg.pallet_account, caller, bought, Error::NotEnoughTokens) {
                        Err(e) => Err(e),
                        Ok(h) => Ok((c, h, with_reserves(pair, pair.currency_reserve + paid, pair.token_reserve - bought))),
                    },
                }
            },
        }
    }
}

/// A direct sale of the asset `id` for currency by `caller`: the new
/// currency balances, holders of the asset and pair, or why it is refused.
pub open spec fn direct_sell(p: Pallet, caller: AccountId, id: AssetId, swap: Swap, deadline: u64) -> Result<(Map<AccountId, Balance>, Map<AccountId, Balance>, Pair), Error> {
    let cfg = p.config();
    if deadline < p.now() {
        Err(Error::DeadlinePassed)
    } else if !trade_amounts_nonzero(swap) {
        Err(Error::TradeAmountIsZero)
    } else if !p.has_pair(id) {
        Err(Error::PairNotFound)
    } else {
        let pair = p.batch(id).pair;
        match asset_to_currency_quote(cfg, pair, swap) {
            Err(e) => Err(e),
            Ok((received, sold)) => if p.registry().balance_of(id, caller) < sold {
                Err(Error::NotEnoughTokens)
            } else if received >= pair.currency_reserve {
                Err(Error::OverLiquidityBalance)
            } else if pair.token_reserve + sold > MAX_BALANCE {
                Err(Error::Overflow)
            } else {
                match transfer_result(p.registry().holders(id), caller, cfg.pallet_account, sold, Error::NotEnoughTokens) {
                    Err(e) => Err(e),
                    Ok(h) => match transfer_result(p.currency(), cfg.pallet_account, caller, received, Error::BalanceTooLow) {
                        Err(e) => Err(e),
                        Ok(c) => Ok((c, h, with_reserves(pair, pair.currency_reserve - received, pair.token_reserve + sold))),
                    },
                }
            },
        }
    }
}

/// The currency balances and the holders of the asset and of the liquidity
/// token after `provider` pays `c` currency and `t` tokens of `asset_id` into
/// custody and receives `l` of the liquidity token `lt`, or why it fails.
pub open spec fn joined(cfg: Config, cur: Map<AccountId, Balance>, reg: Assets, asset_id: AssetId, lt: AssetId, provider: AccountId, c: Balance, t: Balance, l: Balance) -> Result<(Map<AccountId, Balance>, Map<AccountId, Balance>, Map<AccountId, Balance>), Error> {
    match transfer_result(cur, provider, cfg.pallet_account, c, Error::BalanceTooLow) {
        Err(e) => Err(e),
        Ok(cm) => if !reg.has(asset_id) {
            Err(Error::AssetNotFound)
        } else {
            match transfer_result(reg.holders(asset_id), provider, cfg.pallet_account, t, Error::NotEnoughTokens) {
                Err(e) => Err(e),
                Ok(hm) => if !reg.has(lt) {
                    Err(Error::AssetNotFound)
                } else if reg.balance_of(lt, provider) + l > MAX_BALANCE || reg.issuance(lt) + l > MAX_BALANCE {
                    Err(Error::Overflow)
                } else {
                    Ok((cm, hm, reg.holders(lt).insert(provider, (reg.balance_of(lt, provider) + l) as Balance)))
                },
            }
        },
    }
}

/// Creating the pair of `asset_id` with liquidity token `lt`, funded by
/// `caller` with `c` currency and `t` tokens: the new currency balances and
/// holders of the asset, or why it is refused.
pub open spec fn creation(p: Pallet, caller: AccountId, asset_id: AssetId, lt: AssetId, c: Balance, t: Balance) -> Result<(Map<AccountId, Balance>, Map<AccountId, Balance>), Error> {
    let cfg = p.config();
    let reg = p.registry();
    if c < cfg.min_initial_currency {
        Err(Error::CurrencyAmountTooLow)
    } else if t < cfg.min_initial_token {
        Err(Error::TokenAmountTooLow)
    } else if reg.issuance(asset_id) == 0 {
        Err(Error::AssetNotFound)
    } else if p.has_pair(asset_id) {
        Err(Error::PairAlreadyExists)
    } else if reg.has(lt) {
        Err(Error::TokenIdAlreadyInUse)
    } else {
        match transfer_result(p.currency(), caller, cfg.pallet_account, c, Error::BalanceTooLow) {
            Err(e) => Err(e),
            Ok(cm) => match transfer_result(reg.holders(asset_id), caller, cfg.pallet_account, t, Error::NotEnoughTokens) {
                Err(e) => Err(e),
                Ok(hm) => Ok((cm, hm)),
            },
        }
    }
}

/// Adding liquidity to the pair `asset_id`: the tokens owed, the liquidity
/// minted, and the new currency balances and holders of the asset and of
/// the liquidity token; or why it is refused.
pub open spec fn joining(p: Pallet, caller: AccountId, asset_id: AssetId, c: Balance, min_liquidity: Balance, max_tokens: Balance, deadline: u64) -> Result<(Balance, Balance, Map<AccountId, Balance>, Map<AccountId, Balance>, Map<AccountId, Balance>), Error> {
    let cfg = p.config();
    let reg = p.registry();
    if deadline < p.now() {
        Err(Error::DeadlinePassed)
    } else if c == 0 {
        Err(Error::CurrencyAmountIsZero)
    } else if max_tokens == 0 {
        Err(Error::MaxTokensIsZero)
    } else if min_liquidity == 0 {
        Err(Error::MinLiquidityIsZero)
    } else if p.currency()[caller] < c {
        Err(Error::BalanceTooLow)
    } else if !reg.has(asset_id) {
        Err(Error::AssetNotFound)
    } else if reg.balance_of(asset_id, caller) < max_tokens {
        Err(Error::NotEnoughTokens)
    } else if !p.has_pair(asset_id) {
        Err(Error::PairNotFound)
    } else {
        let pair = p.batch(asset_id).pair;
        match join_amounts(cfg, pair, c, reg.issuance(pair.liquidity_token_id)) {
            Err(e) => Err(e),
            Ok((tokens, minted)) => {
                let paid = cfg.to_currency(cfg.to_asset(c as int));
                if tokens > max_tokens {
                    Err(Error::MaxTokensTooLow)
                } else if minted < min_liquidity {
                    Err(Error::MinLiquidityTooHigh)
                } else if pair.currency_reserve + paid > MAX_BALANCE || pair.token_reserve + tokens > MAX_BALANCE {
                    Err(Error::Overflow)
                } else {
                    match joined(cfg, p.currency(), reg, asset_id, pair.liquidity_token_id, caller, paid as Balance, tokens, minted) {
                        Err(e) => Err(e),
                        Ok((cm, hm, lm)) => Ok((tokens, minted, cm, hm, lm)),
                    }
                }
            },
        }
    }
}

/// Moves `c` currency and `t` tokens of `asset_id` from `provider` into
/// custody and mints `l` of the liquidity token `lt` to `provider`, on
/// copies of the ledgers.
fn inner_add_liquidity(cfg: &Config, currency: &Balances, assets: &Assets, asset_id: AssetId, lt: AssetId, provider: AccountId, c: Balance, t: Balance, l: Balance) -> (r: Result<(Balances, Assets), Error>)
    requires
        currency.wf(),
        assets.wf(),
        asset_id != lt,
    ensures
        match joined(*cfg, currency@, *assets, asset_id, lt, provider, c, t, l) {
            Err(e) => r == Err::<(Balances, Assets), Error>(e),
            Ok((cm, hm, lm)) => r matches Ok((nc, na)) && nc.wf() && na.wf() && nc@ == cm
                && assets.with_two_holders(&na, asset_id, hm, lt, lm)
                && na.issuance(lt) == assets.issuance(lt) + l,
        },
{
    let mut nc = currency.copy();
    nc.transfer(provider, cfg.pallet_account, c, Error::BalanceTooLow)?;
    let mut na = assets.copy();
    proof {
        assert(na.holders(asset_id) == assets.holders(asset_id));
        assert(na.has(asset_id) == assets.has(asset_id));
    }
    na.transfer(asset_id, provider, cfg.pallet_account, t)?;
    let ghost mid = na;
    proof {
        assert(mid.has(lt) == assets.has(lt));
        assert(mid.holders(lt) == assets.holders(lt));
        assert(mid.issuance(lt) == assets.issuance(lt));
        assert(mid.issuance(asset_id) == assets.issuance(asset_id));
    }
    na.mint_into(lt, provider, l)?;
    proof {
        assert(na.holders(asset_id) == mid.holders(asset_id));
        assert(na.issuance(asset_id) == mid.issuance(asset_id));
        assert forall|t: AssetId| #[trigger] na.has(t) == assets.has(t) by {
            assert(mid.has(t) == assets.has(t));
        }
        assert forall|t: AssetId| t != asset_id && t != lt implies #[trigger] na.holders(t) == assets.holders(t)
            && na.issuance(t) == assets.issuance(t) by {
            assert(mid.holders(t) == assets.holders(t));
            assert(mid.issuance(t) == assets.issuance(t));
        }
    }
    Ok((nc, na))
}

/// Pairs to create when a market maker starts: (provider, asset,
/// liquidity token, currency amount, token amount).
pub struct GenesisConfig {
    pub pairs: Vec<(AccountId, AssetId, AssetId, Balance, Balance)>,
}

impl Default for GenesisConfig {
    fn default() -> (r: GenesisConfig)
        ensures
            r.pairs@.len() == 0,
    {
        GenesisConfig { pairs: Vec::new() }
    }
}

impl GenesisConfig {
    /// Creates each listed pair in order, funded by its provider; stops at
    /// the first that cannot be created.
    pub fn build(&self, pallet: &mut Pallet) -> (r: Result<(), Error>)
        requires
            old(pallet).wf(),
        ensures
            final(pallet).wf(),
            r is Ok ==> forall|i: int| 0 <= i < self.pairs@.len() ==> #[trigger] final(pallet).has_pair(self.pairs@[i].1),
    {
        let mut i: usize = 0;
        while i < self.pairs.len()
            invariant
                pallet.wf(),
                0 <= i <= self.pairs@.len(),
                forall|j: int| 0 <= j < i ==> #[trigger] pallet.has_pair(self.pairs@[j].1),
            decreases self.pairs@.len() - i,
        {
            let (provider, asset_id, liquidity_token_id, currency_amount, token_amount) = self.pairs[i];
            let ghost before = *pallet;
            pallet.create_pair(provider, asset_id, liquidity_token_id, currency_amount, token_amount)?;
            proof {
                assert forall|j: int| 0 <= j <= i implies #[trigger] pallet.has_pair(self.pairs@[j].1) by {
                    if self.pairs@[j].1 != asset_id {
                        assert(before.has_pair(self.pairs@[j].1));
                    }
                }
            }
            i = i + 1;
        }
        Ok(())
    }
}

/// The per-account events of one side of a settlement: what each account
/// contributed and what it was paid.
fn payout_events(asset_id: AssetId, entries: &Vec<(AccountId, Balance)>, paid: &Vec<(AccountId, Balance)>, buying: bool) -> (r: Vec<Event>)
    requires
        entries@.len() == paid@.len(),
    ensures
        r@.len() == paid@.len(),
{
    let mut events: Vec<Event> = Vec::new();
    let mut i: usize = 0;
    while i < paid.len()
        invariant
            0 <= i <= paid@.len(),
            entries@.len() == paid@.len(),
            events@.len() == i,
        decreases paid@.len() - i,
    {
        let (who, amount_in) = entries[i];
        let amount_out = paid[i].1;
        if buying {
            events.push(Event::SwappedCurrencyForAsset(asset_id, who, amount_in, amount_out));
        } else {
            events.push(Event::SwappedAssetForCurrency(asset_id, who, amount_out, amount_in));
        }
        i = i + 1;
    }
    events
}

/// A copy of a list of accounts.
fn copy_accounts(v: &Vec<AccountId>) -> (r: Vec<AccountId>)
    ensures
        r@ == v@,
{
    let mut r: Vec<AccountId> = Vec::new();
    let mut i: usize = 0;
    while i < v.len()
        invariant
            0 <= i <= v@.len(),
            r@ == v@.subrange(0, i as int),
        decreases v@.len() - i,
    {
        r.push(v[i]);
        i = i + 1;
        assert(r@ =~= v@.subrange(0, i as int));
    }
    assert(r@ =~= v@);
    r
}

/// In a settled batch, every account of a side other than the custody
/// account gains exactly its pro-rata share: buyers of their side's asset
/// output (in asset units), sellers of the currency output.
pub proof fn lemma_settlement_pays_shares(cfg: Config, ps: PairState, currency: Map<AccountId, Balance>, holders: Map<AccountId, Balance>)
    requires
        ps.wf(),
        settlement(cfg, ps, currency, holders) is Ok,
    ensures
        ({
            let (cl, c, h) = settlement(cfg, ps, currency, holders)->Ok_0;
            let cc = ps.currency_cumulative.entries();
            let ac = ps.asset_cumulative.entries();
            &&& forall|i: int| 0 <= i < cc.len() && cc[i].0 != cfg.pallet_account ==>
                h[#[trigger] cc[i].0] == holders[cc[i].0] + shares(cc, cfg.to_asset(cl.asset_out as int), total_of(cc))[i].1
            &&& forall|i: int| 0 <= i < ac.len() && ac[i].0 != cfg.pallet_account ==>
                c[#[trigger] ac[i].0] == currency[ac[i].0] + shares(ac, cl.currency_out as int, total_of(ac))[i].1
        }),
{
    let (cl, c, h) = settlement(cfg, ps, currency, holders)->Ok_0;
    let cc = ps.currency_cumulative.entries();
    let ac = ps.asset_cumulative.entries();
    let bought = shares(cc, cfg.to_asset(cl.asset_out as int), total_of(cc));
    let sold = shares(ac, cl.currency_out as int, total_of(ac));
    assert(keys_distinct(bought)) by {
        assert forall|a: int, b: int| 0 <= a < b < bought.len() implies bought[a].0 != bought[b].0 by {
            assert(cc[a].0 != cc[b].0);
        }
    }
    assert(keys_distinct(sold)) by {
        assert forall|a: int, b: int| 0 <= a < b < sold.len() implies sold[a].0 != sold[b].0 by {
            assert(ac[a].0 != ac[b].0);
        }
    }
    let h0 = pay_all(holders, cfg.pallet_account, bought, Error::NotEnoughTokens);
    let c0 = pay_all(currency, cfg.pallet_account, sold, Error::BalanceTooLow);
    assert(h0 is Ok && h0->Ok_0 == h);
    assert(c0 is Ok && c0->Ok_0 == c);
    assert forall|i: int| 0 <= i < cc.len() && cc[i].0 != cfg.pallet_account implies
        h[#[trigger] cc[i].0] == holders[cc[i].0] + bought[i].1 by {
        lemma_pay_all_credits(holders, cfg.pallet_account, bought, Error::NotEnoughTokens, i);
    }
    assert forall|i: int| 0 <= i < ac.len() && ac[i].0 != cfg.pallet_account implies
        c[#[trigger] ac[i].0] == currency[ac[i].0] + sold[i].1 by {
        lemma_pay_all_credits(currency, cfg.pallet_account, sold, Error::BalanceTooLow, i);
    }
}

/// Two accounts of one side that escrowed equal amounts gain equal payouts
/// from a settlement, whichever enqueued first.
pub proof fn lemma_settlement_equal_intents(cfg: Config, ps: PairState, currency: Map<AccountId, Balance>, holders: Map<AccountId, Balance>, i: int, j: int)
    requires
        ps.wf(),
        settlement(cfg, ps, currency, holders) is Ok,
    ensures
        ({
            let (cl, c, h) = settlement(cfg, ps, currency, holders)->Ok_0;
            let cc = ps.currency_cumulative.entries();
            let ac = ps.asset_cumulative.entries();
            &&& (0 <= i < cc.len() && 0 <= j < cc.len() && cc[i].1 == cc[j].1 && cc[i].0 != cfg.pallet_account
                && cc[j].0 != cfg.pallet_account) ==> h[cc[i].0] - holders[cc[i].0] == h[cc[j].0] - holders[cc[j].0]
            &&& (0 <= i < ac.len() && 0 <= j < ac.len() && ac[i].1 == ac[j].1 && ac[i].0 != cfg.pallet_account
                && ac[j].0 != cfg.pallet_account) ==> c[ac[i].0] - currency[ac[i].0] == c[ac[j].0] - currency[ac[j].0]
        }),
{
    lemma_settlement_pays_shares(cfg, ps, currency, holders);
}

/// What the accounts of `s` gained between the balances `before` and `after`.
pub open spec fn gained(s: Seq<(AccountId, Balance)>, before: Map<AccountId, Balance>, after: Map<AccountId, Balance>) -> int
    decreases s.len(),
{
    if s.len() == 0 {
        0
    } else {
        gained(s.drop_last(), before, after) + after[s.last().0] - before[s.last().0]
    }
}

proof fn lemma_gained_is_shares_total(s: Seq<(AccountId, Balance)>, before: Map<AccountId, Balance>, after: Map<AccountId, Balance>, out: int, total: int)
    requires
        forall|i: int| 0 <= i < s.len() ==> after[#[trigger] s[i].0] == before[s[i].0] + share(out, s[i].1 as int, total),
    ensures
        gained(s, before, after) == shares_total(s, out, total),
    decreases s.len(),
{
    if s.len() > 0 {
        let t = s.drop_last();
        assert forall|i: int| 0 <= i < t.len() implies after[#[trigger] t[i].0] == before[t[i].0] + share(out, t[i].1 as int, total) by {
            assert(t[i] == s[i]);
        }
        lemma_gained_is_shares_total(t, before, after, out, total);
        assert(s.last() == s[s.len() - 1]);
    }
}

/// In a settled batch where the custody account does not trade, the gains
/// of each side's accounts add up to that side's output, less at most one
/// unit per account lost to rounding.
pub proof fn lemma_settlement_payout_totals(cfg: Config, ps: PairState, currency: Map<AccountId, Balance>, holders: Map<AccountId, Balance>)
    requires
        cfg.wf(),
        ps.wf(),
        settlement(cfg, ps, currency, holders) is Ok,
        total_of(ps.currency_cumulative.entries()) > 0,
        total_of(ps.asset_cumulative.entries()) > 0,
        forall|i: int| 0 <= i < ps.currency_cumulative.entries().len() ==> #[trigger] ps.currency_cumulative.entries()[i].0 != cfg.pallet_account,
        forall|i: int| 0 <= i < ps.asset_cumulative.entries().len() ==> #[trigger] ps.asset_cumulative.entries()[i].0 != cfg.pallet_account,
    ensures
        ({
            let (cl, c, h) = settlement(cfg, ps, currency, holders)->Ok_0;
            let cc = ps.currency_cumulative.entries();
            let ac = ps.asset_cumulative.entries();
            let asset_out = cfg.to_asset(cl.asset_out as int);
            &&& asset_out - cc.len() < gained(cc, holders, h) <= asset_out
            &&& cl.currency_out - ac.len() < gained(ac, currency, c) <= cl.currency_out
        }),
{
    let (cl, c, h) = settlement(cfg, ps, currency, holders)->Ok_0;
    let cc = ps.currency_cumulative.entries();
    let ac = ps.asset_cumulative.entries();
    let asset_out = cfg.to_asset(cl.asset_out as int);
    let out_c = cl.currency_out as int;
    let tc = total_of(cc);
    let ta = total_of(ac);
    lemma_settlement_pays_shares(cfg, ps, currency, holders);
    assert(asset_out >= 0) by (nonlinear_arith)
        requires
            asset_out == cl.asset_out as int / (cfg.currency_per_asset as int),
            cfg.currency_per_asset >= 1,
    ;
    assert forall|i: int| 0 <= i < cc.len() implies h[#[trigger] cc[i].0] == holders[cc[i].0] + share(asset_out, cc[i].1 as int, tc) by {
        let q = share(asset_out, cc[i].1 as int, tc);
        let a = cc[i].1 as int;
        assert(asset_out * a <= MAX_BALANCE);
        assert(0 <= q <= MAX_BALANCE) by (nonlinear_arith)
            requires
                q == (asset_out * a) / tc,
                asset_out * a <= MAX_BALANCE,
                asset_out >= 0,
                a >= 0,
                tc > 0,
        ;
    }
    assert forall|i: int| 0 <= i < ac.len() implies c[#[trigger] ac[i].0] == currency[ac[i].0] + share(out_c, ac[i].1 as int, ta) by {
        let q = share(out_c, ac[i].1 as int, ta);
        let a = ac[i].1 as int;
        assert(out_c * a <= MAX_BALANCE);
        assert(0 <= q <= MAX_BALANCE) by (nonlinear_arith)
            requires
                q == (out_c * a) / ta,
                out_c * a <= MAX_BALANCE,
                out_c >= 0,
                a >= 0,
                ta > 0,
        ;
    }
    lemma_gained_is_shares_total(cc, holders, h, asset_out, tc);
    lemma_gained_is_shares_total(ac, currency, c, out_c, ta);
    lemma_payouts_sum(cc, asset_out);
    lemma_payouts_sum(ac, out_c);
}

impl Pallet {
    pub closed spec fn wf(&self) -> bool {
        &&& self.config.wf()
        &&& self.currency.wf()
        &&& self.assets.wf()
        &&& forall|i: int, j: int| 0 <= i < j < self.pairs@.len() ==> self.pairs@[i].pair.asset_id != self.pairs@[j].pair.asset_id
        &&& forall|i: int| 0 <= i < self.pairs@.len() ==> (#[trigger] self.pairs@[i]).wf()
            && self.assets.has(self.pairs@[i].pair.asset_id)
            && self.assets.has(self.pairs@[i].pair.liquidity_token_id)
    }

    pub closed spec fn config(&self) -> Config {
        self.config
    }

    /// The current block number, against which deadlines are checked.
    pub closed spec fn now(&self) -> u64 {
        self.block_number
    }

    /// The currency balances.
    pub closed spec fn currency(&self) -> Map<AccountId, Balance> {
        self.currency@
    }

    /// The asset registry.
    pub closed spec fn registry(&self) -> Assets {
        self.assets
    }

    pub closed spec fn recorded(&self) -> Seq<Event> {
        self.events@
    }

    /// A pair of the asset `id` exists.
    pub closed spec fn has_pair(&self, id: AssetId) -> bool {
        exists|i: int| 0 <= i < self.pairs@.len() && self.pairs@[i].pair.asset_id == id
    }

    closed spec fn pair_index(&self, id: AssetId) -> int {
        choose|i: int| 0 <= i < self.pairs@.len() && self.pairs@[i].pair.asset_id == id
    }

    /// The pair of the asset `id` and its queued intents.
    pub closed spec fn batch(&self, id: AssetId) -> PairState {
        self.pairs@[self.pair_index(id)]
    }

    /// `other` has the same pairs as this state, and but for the pair `id`
    /// the same batches, parameters and block number.
    pub open spec fn same_but_pair(&self, other: &Pallet, id: AssetId) -> bool {
        &&& other.config() == self.config()
        &&& other.now() == self.now()
        &&& forall|t: AssetId| #[trigger] other.has_pair(t) == self.has_pair(t)
        &&& forall|t: AssetId| t != id && self.has_pair(t) ==> #[trigger] other.batch(t) == self.batch(t)
    }

    proof fn lemma_batch_wf(&self, id: AssetId)
        requires
            self.wf(),
            self.has_pair(id),
        ensures
            self.batch(id).wf(),
            self.batch(id).pair.asset_id == id,
            self.assets.has(id),
            self.assets.has(self.batch(id).pair.liquidity_token_id),
    {
        let c = self.pair_index(id);
        assert(self.pairs@[c].wf());
    }

    /// A market maker with no pairs, balances or assets.
    pub fn new(config: Config) -> (r: Pallet)
        requires
            config.wf(),
        ensures
            r.wf(),
            r.config() == config,
            r.now() == 0,
            forall|t: AssetId| !(#[trigger] r.has_pair(t)),
            forall|k: AccountId| #[trigger] r.currency()[k] == 0,
    {
        Pallet {
            config,
            block_number: 0,
            pairs: Vec::new(),
            currency: Balances::new(),
            assets: Assets::new(),
            events: Vec::new(),
        }
    }

    fn find_pair(&self, id: AssetId) -> (r: Option<usize>)
        requires
            self.wf(),
        ensures
            r matches Some(i) ==> i < self.pairs@.len() && self.has_pair(id) && self.pair_index(id) == i
                && self.pairs@[i as int] == self.batch(id),
            r is None <==> !self.has_pair(id),
    {
        let mut i: usize = 0;
        while i < self.pairs.len()
            invariant
                self.wf(),
                0 <= i <= self.pairs@.len(),
                forall|j: int| 0 <= j < i ==> self.pairs@[j].pair.asset_id != id,
            decreases self.pairs@.len() - i,
        {
            if self.pairs[i].pair.asset_id == id {
                proof {
                    assert(self.has_pair(id));
                    let c = self.pair_index(id);
                    let ii = i as int;
                    if c < ii {
                        assert(self.pairs@[c].pair.asset_id != self.pairs@[ii].pair.asset_id);
                    } else if ii < c {
                        assert(self.pairs@[ii].pair.asset_id != self.pairs@[c].pair.asset_id);
                    }
                }
                return Some(i);
            }
            i = i + 1;
        }
        None
    }

    /// Replaces the batch at `i` by `ps`, of the same asset.
    fn put_pair(&mut self, i: usize, ps: PairState)
        requires
            old(self).wf(),
            i < old(self).pairs@.len(),
            ps.pair.asset_id == old(self).pairs@[i as int].pair.asset_id,
        ensures
            final(self).pairs@ == old(self).pairs@.update(i as int, ps),
            final(self).config == old(self).config,
            final(self).block_number == old(self).block_number,
            final(self).currency == old(self).currency,
            final(self).assets == old(self).assets,
            final(self).events == old(self).events,
            old(self).same_but_pair(&*final(self), ps.pair.asset_id),
            final(self).has_pair(ps.pair.asset_id),
            final(self).batch(ps.pair.asset_id) == ps,
            forall|a: int, b: int| 0 <= a < b < final(self).pairs@.len() ==> final(self).pairs@[a].pair.asset_id != final(self).pairs@[b].pair.asset_id,
    {
        let ghost before = self.pairs@;
        let id = ps.pair.asset_id;
        self.pairs.set(i, ps);
        proof {
            let after = self.pairs@;
            assert(after == before.update(i as int, ps));
            assert forall|a: int, b: int| 0 <= a < b < after.len() implies after[a].pair.asset_id != after[b].pair.asset_id by {
                assert(after[a].pair.asset_id == before[a].pair.asset_id);
                assert(after[b].pair.asset_id == before[b].pair.asset_id);
            }
            assert forall|t: AssetId| #[trigger] self.has_pair(t) == old(self).has_pair(t) by {
                if old(self).has_pair(t) {
                    let c = old(self).pair_index(t);
                    assert(after[c].pair.asset_id == t);
                }
                if self.has_pair(t) {
                    let c = self.pair_index(t);
                    assert(before[c].pair.asset_id == t);
                }
            }
            assert(after[i as int].pair.asset_id == id);
            assert(self.has_pair(id));
            let d0 = self.pair_index(id);
            let ii = i as int;
            assert(after[d0].pair.asset_id == id);
            if d0 < ii {
                assert(after[d0].pair.asset_id != after[ii].pair.asset_id);
            } else if ii < d0 {
                assert(after[ii].pair.asset_id != after[d0].pair.asset_id);
            }
            assert forall|t: AssetId| t != id && old(self).has_pair(t) implies #[trigger] self.batch(t) == old(self).batch(t) by {
                let c = old(self).pair_index(t);
                assert(before[c].pair.asset_id == t);
                assert(c != ii);
                assert(after[c].pair.asset_id == t);
                let d = self.pair_index(t);
                assert(after[d].pair.asset_id == t);
                if d < c {
                    assert(after[d].pair.asset_id != after[c].pair.asset_id);
                } else if c < d {
                    assert(after[c].pair.asset_id != after[d].pair.asset_id);
                }
            }
        }
    }

    /// Settles the batch of the pair `asset_id`: the fragmented clearing
    /// computes one blended reserve state, every queued account is paid pro
    /// rata to what it escrowed, custody is checked against the new reserves,
    /// and the queues and cumulative ledgers are emptied. Nothing changes
    /// where any step fails.
    pub fn settle_and_distribute(&mut self, asset_id: AssetId) -> (r: Result<(), Error>)
        requires
            old(self).wf(),
        ensures
            final(self).wf(),
            r is Err ==> *final(self) == *old(self),
            !old(self).has_pair(asset_id) ==> r == Err::<(), Error>(Error::PairNotFound),
            old(self).has_pair(asset_id) ==> ({
                let ps = old(self).batch(asset_id);
                let cfg = old(self).config();
                if ps.currency_queue@.len() < cfg.min_queue_amount || ps.asset_queue@.len() < cfg.min_queue_amount {
                    r == Err::<(), Error>(Error::QueueTooSmall)
                } else {
                    match settlement(cfg, ps, old(self).currency(), old(self).registry().holders(asset_id)) {
                        Err(e) => r == Err::<(), Error>(e),
                        Ok((cl, cur, held)) => {
                            let after = final(self).batch(asset_id);
                            &&& r is Ok
                            &&& final(self).currency() == cur
                            &&& old(self).registry().with_holders(&final(self).registry(), asset_id, held)
                            &&& final(self).registry().issuance(asset_id) == old(self).registry().issuance(asset_id)
                            &&& final(self).has_pair(asset_id)
                            &&& after.pair.asset_id == asset_id
                            &&& after.pair.liquidity_token_id == ps.pair.liquidity_token_id
                            &&& after.pair.currency_reserve == cl.temp_currency
                            &&& after.pair.token_reserve == cfg.to_asset(cl.temp_asset as int)
                            &&& after.currency_queue@.len() == 0
                            &&& after.asset_queue@.len() == 0
                            &&& after.currency_cumulative.entries().len() == 0
                            &&& after.asset_cumulative.entries().len() == 0
                            &&& forall|a: AccountId| #[trigger] after.currency_cumulative@[a] == 0
                                && after.asset_cumulative@[a] == 0
                        },
                    }
                }
            }),
            old(self).same_but_pair(&*final(self), asset_id),
    {
        let i = match self.find_pair(asset_id) {
            Some(i) => i,
            None => return Err(Error::PairNotFound),
        };
        proof {
            self.lemma_batch_wf(asset_id);
        }
        let cfg = self.config;
        let ps = &self.pairs[i];
        let min = cfg.min_queue_amount as usize;
        if ps.currency_queue.len() < min || ps.asset_queue.len() < min {
            return Err(Error::QueueTooSmall);
        }
        let cc = ps.currency_cumulative.entries_vec();
        let ac = ps.asset_cumulative.entries_vec();
        let total_c = calculate_cumulative(cc)?;
        let total_a = calculate_cumulative(ac)?;
        let plan = settle_plan(&cfg, &ps.pair, total_c, total_a)?;
        let new_tokens = cfg.currency_to_asset(plan.temp_asset);
        if plan.temp_currency == 0 || new_tokens == 0 {
            return Err(Error::Underflow);
        }
        let asset_out = cfg.currency_to_asset(plan.asset_out);
        let asset_shares = pro_rata(cc, asset_out, total_c)?;
        let currency_shares = pro_rata(ac, plan.currency_out, total_a)?;
        let mut bought_events = payout_events(asset_id, cc, &asset_shares, true);
        let mut sold_events = payout_events(asset_id, ac, &currency_shares, false);
        let pallet_account = cfg.pallet_account();
        let mut assets = self.assets.copy();
        assets.pay_all(asset_id, pallet_account, &asset_shares)?;
        let mut currency = self.currency.copy();
        currency.pay_all(pallet_account, &currency_shares, Error::BalanceTooLow)?;
        if currency.balance(pallet_account) < plan.temp_currency {
            return Err(Error::CurrencyLeak);
        }
        if assets.balance(asset_id, pallet_account) < new_tokens {
            return Err(Error::AssetLeak);
        }
        let pair = Pair {
            asset_id,
            currency_reserve: plan.temp_currency,
            token_reserve: new_tokens,
            liquidity_token_id: ps.pair.liquidity_token_id,
        };
        let settled = PairState {
            pair,
            currency_queue: Vec::new(),
            asset_queue: Vec::new(),
            currency_cumulative: Balances::new(),
            asset_cumulative: Balances::new(),
        };
        let ghost before = *self;
        self.put_pair(i, settled);
        let ghost mid = *self;
        self.assets = assets;
        self.currency = currency;
        self.events.append(&mut bought_events);
        self.events.append(&mut sold_events);
        self.events.push(Event::DistributeSettlement(asset_id, plan.currency_out, asset_out));
        proof {
            assert(self.pairs == mid.pairs);
            assert forall|t: AssetId| #[trigger] self.has_pair(t) == mid.has_pair(t) by {}
            assert forall|t: AssetId| #[trigger] self.batch(t) == mid.batch(t) by {}
            assert(self.registry().has(asset_id));
            assert forall|t: AssetId| self.has_pair(t) implies self.registry().has(t) by {
                if t != asset_id {
                    assert(self.batch(t) == before.batch(t));
                    before.lemma_batch_wf(t);
                }
            }
            assert forall|j: int| 0 <= j < self.pairs@.len() implies (#[trigger] self.pairs@[j]).wf()
                && self.assets.has(self.pairs@[j].pair.asset_id)
                && self.assets.has(self.pairs@[j].pair.liquidity_token_id) by {
                assert(before.pairs@[j].wf());
                assert(before.assets.has(before.pairs@[j].pair.asset_id));
                assert(before.assets.has(before.pairs@[j].pair.liquidity_token_id));
            }
        }
        Ok(())
    }

    /// Queues an intent of `caller` to buy the asset `asset_id` with
    /// `amount_in` currency: the amount moves into custody, the caller joins
    /// the currency queue and its cumulative amount grows by `amount_in`.
    /// The execution price is fixed only at settlement.
    pub fn add_swap_currency_for_asset(&mut self, caller: AccountId, asset_id: AssetId, amount_in: Balance, deadline: u64) -> (r: Result<(), Error>)
        requires
            old(self).wf(),
        ensures
            final(self).wf(),
            match currency_intent(*old(self), caller, asset_id, amount_in, deadline) {
                Err(e) => r == Err::<(), Error>(e) && *final(self) == *old(self),
                Ok(m) => {
                    let ps = old(self).batch(asset_id);
                    let after = final(self).batch(asset_id);
                    &&& r is Ok
                    &&& final(self).currency() == m
                    &&& final(self).registry() == old(self).registry()
                    &&& final(self).has_pair(asset_id)
                    &&& after.pair == ps.pair
                    &&& after.currency_queue@ == ps.currency_queue@.push(caller)
                    &&& after.asset_queue@ == ps.asset_queue@
                    &&& after.currency_cumulative@ == ps.currency_cumulative@.insert(caller, (ps.currency_cumulative@[caller] + amount_in) as Balance)
                    &&& after.asset_cumulative.entries() == ps.asset_cumulative.entries()
                },
            },
            old(self).same_but_pair(&*final(self), asset_id),
    {
        if deadline < self.block_number {
            return Err(Error::DeadlinePassed);
        }
        if amount_in == 0 {
            return Err(Error::TradeAmountIsZero);
        }
        if self.currency.balance(caller) < amount_in {
            return Err(Error::BalanceTooLow);
        }
        let i = match self.find_pair(asset_id) {
            Some(i) => i,
            None => return Err(Error::PairNotFound),
        };
        proof {
            self.lemma_batch_wf(asset_id);
        }
        let cfg = self.config;
        let ps = &self.pairs[i];
        let tr = match cfg.asset_to_currency(ps.pair.token_reserve) {
            Some(v) => v,
            None => return Err(Error::Overflow),
        };
        proof {
            assert(tr >= ps.pair.token_reserve) by (nonlinear_arith)
                requires
                    tr == ps.pair.token_reserve * cfg.currency_per_asset,
                    cfg.currency_per_asset >= 1,
            ;
        }
        cp_get_output_amount(&cfg, amount_in, ps.pair.currency_reserve, tr)?;
        let cumulative = ps.currency_cumulative.balance(caller);
        if cumulative > MAX_BALANCE - amount_in {
            return Err(Error::Overflow);
        }
        let mut currency = self.currency.copy();
        currency.transfer(caller, cfg.pallet_account, amount_in, Error::BalanceTooLow)?;
        let mut queue = copy_accounts(&ps.currency_queue);
        queue.push(caller);
        let mut cumulative_ledger = ps.currency_cumulative.copy();
        cumulative_ledger.set_balance(caller, cumulative + amount_in);
        let next = PairState {
            pair: ps.pair,
            currency_queue: queue,
            asset_queue: copy_accounts(&ps.asset_queue),
            currency_cumulative: cumulative_ledger,
            asset_cumulative: ps.asset_cumulative.copy(),
        };
        let ghost before = *self;
        self.put_pair(i, next);
        let ghost mid = *self;
        self.currency = currency;
        self.events.push(Event::AddedSwapCurrencyForAsset(asset_id, caller, amount_in));
        proof {
            self.lemma_after_put(before, mid, i as int, asset_id);
        }
        Ok(())
    }

    /// Queues an intent of `caller` to sell `amount_in` of the asset
    /// `asset_id` for currency: the tokens move into custody, the caller
    /// joins the asset queue and its cumulative amount grows by `amount_in`.
    pub fn add_swap_asset_for_currency(&mut self, caller: AccountId, asset_id: AssetId, amount_in: Balance, deadline: u64) -> (r: Result<(), Error>)
        requires
            old(self).wf(),
        ensures
            final(self).wf(),
            match asset_intent(*old(self), caller, asset_id, amount_in, deadline) {
                Err(e) => r == Err::<(), Error>(e) && *final(self) == *old(self),
                Ok(m) => {
                    let ps = old(self).batch(asset_id);
                    let after = final(self).batch(asset_id);
                    &&& r is Ok
                    &&& final(self).currency() == old(self).currency()
                    &&& old(self).registry().with_holders(&final(self).registry(), asset_id, m)
                    &&& final(self).registry().issuance(asset_id) == old(self).registry().issuance(asset_id)
                    &&& final(self).has_pair(asset_id)
                    &&& after.pair == ps.pair
                    &&& after.asset_queue@ == ps.asset_queue@.push(caller)
                    &&& after.currency_queue@ == ps.currency_queue@
                    &&& after.asset_cumulative@ == ps.asset_cumulative@.insert(caller, (ps.asset_cumulative@[caller] + amount_in) as Balance)
                    &&& after.currency_cumulative.entries() == ps.currency_cumulative.entries()
                },
            },
            old(self).same_but_pair(&*final(self), asset_id),
    {
        if deadline < self.block_number {
            return Err(Error::DeadlinePassed);
        }
        if amount_in == 0 {
            return Err(Error::TradeAmountIsZero);
        }
        self.check_enough_tokens(asset_id, caller, amount_in)?;
        let i = match self.find_pair(asset_id) {
            Some(i) => i,
            None => return Err(Error::PairNotFound),
        };
        proof {
            self.lemma_batch_wf(asset_id);
        }
        let cfg = self.config;
        let ps = &self.pairs[i];
        let sold = match cfg.asset_to_currency(amount_in) {
            Some(v) => v,
            None => return Err(Error::Overflow),
        };
        let tr = match cfg.asset_to_currency(ps.pair.token_reserve) {
            Some(v) => v,
            None => return Err(Error::Overflow),
        };
        proof {
            assert(tr >= ps.pair.token_reserve) by (nonlinear_arith)
                requires
                    tr == ps.pair.token_reserve * cfg.currency_per_asset,
                    cfg.currency_per_asset >= 1,
            ;
        }
        cp_get_output_amount(&cfg, sold, tr, ps.pair.currency_reserve)?;
        let cumulative = ps.asset_cumulative.balance(caller);
        if cumulative > MAX_BALANCE - amount_in {
            return Err(Error::Overflow);
        }
        let mut assets = self.assets.copy();
        assets.transfer(asset_id, caller, cfg.pallet_account, amount_in)?;
        let mut queue = copy_accounts(&ps.asset_queue);
        queue.push(caller);
        let mut cumulative_ledger = ps.asset_cumulative.copy();
        cumulative_ledger.set_balance(caller, cumulative + amount_in);
        let next = PairState {
            pair: ps.pair,
            currency_queue: copy_accounts(&ps.currency_queue),
            asset_queue: queue,
            currency_cumulative: ps.currency_cumulative.copy(),
            asset_cumulative: cumulative_ledger,
        };
        let ghost before = *self;
        self.put_pair(i, next);
        let ghost mid = *self;
        self.assets = assets;
        self.events.push(Event::AddedSwapAssetForCurrency(asset_id, caller, amount_in));
        proof {
            self.lemma_after_put(before, mid, i as int, asset_id);
        }
        Ok(())
    }

    /// Buys the asset `asset_id` with currency at once, at the pool's price:
    /// the caller pays into custody, custody pays the tokens out and the
    /// reserves follow.
    #[verifier::rlimit(40)]
    pub fn cp_swap_currency_for_asset(&mut self, caller: AccountId, asset_id: AssetId, swap: Swap, deadline: u64) -> (r: Result<(), Error>)
        requires
            old(self).wf(),
        ensures
            final(self).wf(),
            match direct_buy(*old(self), caller, asset_id, swap, deadline) {
                Err(e) => r == Err::<(), Error>(e) && *final(self) == *old(self),
                Ok((c, h, pair)) => {
                    let ps = old(self).batch(asset_id);
                    let after = final(self).batch(asset_id);
                    &&& r is Ok
                    &&& final(self).currency() == c
                    &&& old(self).registry().with_holders(&final(self).registry(), asset_id, h)
                    &&& final(self).registry().issuance(asset_id) == old(self).registry().issuance(asset_id)
                    &&& final(self).has_pair(asset_id)
                    &&& after.pair == pair
                    &&& after.currency_queue@ == ps.currency_queue@
                    &&& after.asset_queue@ == ps.asset_queue@
                    &&& after.currency_cumulative.entries() == ps.currency_cumulative.entries()
                    &&& after.asset_cumulative.entries() == ps.asset_cumulative.entries()
                },
            },
            old(self).same_but_pair(&*final(self), asset_id),
    {
        self.check_deadline(deadline)?;
        cp_check_trade_amount(&swap)?;
        let i = match self.find_pair(asset_id) {
            Some(i) => i,
            None => return Err(Error::PairNotFound),
        };
        proof {
            self.lemma_batch_wf(asset_id);
        }
        let cfg = self.config;
        let ps = &self.pairs[i];
        let (paid, bought) = cp_compute_currency_to_asset(&cfg, &ps.pair, swap)?;
        self.check_enough_currency(caller, paid)?;
        if bought >= ps.pair.token_reserve {
            return Err(Error::OverLiquidityBalance);
        }
        if ps.pair.currency_reserve > MAX_BALANCE - paid {
            return Err(Error::Overflow);
        }
        let mut currency = self.currency.copy();
        currency.transfer(caller, cfg.pallet_account, paid, Error::BalanceTooLow)?;
        let mut assets = self.assets.copy();
        assets.transfer(asset_id, cfg.pallet_account, caller, bought)?;
        let pair = Pair {
            asset_id,
            currency_reserve: ps.pair.currency_reserve + paid,
            token_reserve: ps.pair.token_reserve - bought,
            liquidity_token_id: ps.pair.liquidity_token_id,
        };
        let next = PairState {
            pair,
            currency_queue: copy_accounts(&ps.currency_queue),
            asset_queue: copy_accounts(&ps.asset_queue),
            currency_cumulative: ps.currency_cumulative.copy(),
            asset_cumulative: ps.asset_cumulative.copy(),
        };
        let ghost before = *self;
        self.put_pair(i, next);
        let ghost mid = *self;
        self.currency = currency;
        self.assets = assets;
        self.events.push(Event::SwappedCurrencyForAsset(asset_id, caller, paid, bought));
        proof {
            self.lemma_after_put(before, mid, i as int, asset_id);
        }
        Ok(())
    }

    /// Sells the asset `asset_id` for currency at once, at the pool's price:
    /// the caller pays the tokens into custody, custody pays the currency out
    /// and the reserves follow.
    #[verifier::rlimit(40)]
    pub fn cp_swap_asset_for_currency(&mut self, caller: AccountId, asset_id: AssetId, swap: Swap, deadline: u64) -> (r: Result<(), Error>)
        requires
            old(self).wf(),
        ensures
            final(self).wf(),
            match direct_sell(*old(self), caller, asset_id, swap, deadline) {
                Err(e) => r == Err::<(), Error>(e) && *final(self) == *old(self),
                Ok((c, h, pair)) => {
                    let ps = old(self).batch(asset_id);
                    let after = final(self).batch(asset_id);
                    &&& r is Ok
                    &&& final(self).currency() == c
                    &&& old(self).registry().with_holders(&final(self).registry(), asset_id, h)
                    &&& final(self).registry().issuance(asset_id) == old(self).registry().issuance(asset_id)
                    &&& final(self).has_pair(asset_id)
                    &&& after.pair == pair
                    &&& after.currency_queue@ == ps.currency_queue@
                    &&& after.asset_queue@ == ps.asset_queue@
                    &&& after.currency_cumulative.entries() == ps.currency_cumulative.entries()
                    &&& after.asset_cumulative.entries() == ps.asset_cumulative.entries()
                },
            },
            old(self).same_but_pair(&*final(self), asset_id),
    {
        self.check_deadline(deadline)?;
        cp_check_trade_amount(&swap)?;
        let i = match self.find_pair(asset_id) {
            Some(i) => i,
            None => return Err(Error::PairNotFound),
        };
        proof {
            self.lemma_batch_wf(asset_id);
        }
        let cfg = self.config;
        let ps = &self.pairs[i];
        let (received, sold) = cp_get_asset_to_currency_price(&cfg, &ps.pair, swap)?;
        if self.assets.balance(asset_id, caller) < sold {
            return Err(Error::NotEnoughTokens);
        }
        if received >= ps.pair.currency_reserve {
            return Err(Error::OverLiquidityBalance);
        }
        if ps.pair.token_reserve > MAX_BALANCE - sold {
            return Err(Error::Overflow);
        }
        let mut assets = self.assets.copy();
        assets.transfer(asset_id, caller, cfg.pallet_account, sold)?;
        let mut currency = self.currency.copy();
        currency.transfer(cfg.pallet_account, caller, received, Error::BalanceTooLow)?;
        let pair = Pair {
            asset_id,
            currency_reserve: ps.pair.currency_reserve - received,
            token_reserve: ps.pair.token_reserve + sold,
            liquidity_token_id: ps.pair.liquidity_token_id,
        };
        let next = PairState {
            pair,
            currency_queue: copy_accounts(&ps.currency_queue),
            asset_queue: copy_accounts(&ps.asset_queue),
            currency_cumulative: ps.currency_cumulative.copy(),
            asset_cumulative: ps.asset_cumulative.copy(),
        };
        let ghost before = *self;
        self.put_pair(i, next);
        let ghost mid = *self;
        self.currency = currency;
        self.assets = assets;
        self.events.push(Event::SwappedAssetForCurrency(asset_id, caller, received, sold));
        proof {
            self.lemma_after_put(before, mid, i as int, asset_id);
            let ps0 = before.batch(asset_id);
            assert(direct_sell(before, caller, asset_id, swap, deadline) is Ok);
            assert(self.batch(asset_id).pair == with_reserves(ps0.pair, ps0.pair.currency_reserve - received, ps0.pair.token_reserve + sold));
            assert(before.registry().with_holders(&self.registry(), asset_id, transfer_result(before.registry().holders(asset_id), caller, cfg.pallet_account, sold, Error::NotEnoughTokens)->Ok_0));
        }
        Ok(())
    }

    /// Appends a new batch of an asset that has no pair yet.
    fn push_pair(&mut self, ps: PairState)
        requires
            !old(self).has_pair(ps.pair.asset_id),
            forall|a: int, b: int| 0 <= a < b < old(self).pairs@.len() ==> old(self).pairs@[a].pair.asset_id != old(self).pairs@[b].pair.asset_id,
        ensures
            final(self).pairs@ == old(self).pairs@.push(ps),
            final(self).config == old(self).config,
            final(self).block_number == old(self).block_number,
            final(self).currency == old(self).currency,
            final(self).assets == old(self).assets,
            final(self).events == old(self).events,
            final(self).has_pair(ps.pair.asset_id),
            final(self).batch(ps.pair.asset_id) == ps,
            forall|t: AssetId| t != ps.pair.asset_id ==> #[trigger] final(self).has_pair(t) == old(self).has_pair(t),
            forall|t: AssetId| t != ps.pair.asset_id && old(self).has_pair(t) ==> #[trigger] final(self).batch(t) == old(self).batch(t),
            forall|a: int, b: int| 0 <= a < b < final(self).pairs@.len() ==> final(self).pairs@[a].pair.asset_id != final(self).pairs@[b].pair.asset_id,
    {
        let ghost before = self.pairs@;
        let id = ps.pair.asset_id;
        self.pairs.push(ps);
        proof {
            let after = self.pairs@;
            let n = before.len() as int;
            assert(after[n].pair.asset_id == id);
            assert forall|j: int| 0 <= j < n implies before[j].pair.asset_id != id by {
                if before[j].pair.asset_id == id {
                    assert(old(self).has_pair(id));
                }
            }
            assert forall|a: int, b: int| 0 <= a < b < after.len() implies after[a].pair.asset_id != after[b].pair.asset_id by {
                if b < n {
                    assert(after[a] == before[a]);
                    assert(after[b] == before[b]);
                } else {
                    assert(after[a] == before[a]);
                }
            }
            assert(self.has_pair(id));
            let d0 = self.pair_index(id);
            assert(after[d0].pair.asset_id == id);
            assert(d0 == n);
            assert forall|t: AssetId| t != id implies #[trigger] self.has_pair(t) == old(self).has_pair(t) by {
                if old(self).has_pair(t) {
                    let c = old(self).pair_index(t);
                    assert(after[c] == before[c]);
                }
                if self.has_pair(t) {
                    let c = self.pair_index(t);
                    assert(c < n);
                    assert(after[c] == before[c]);
                }
            }
            assert forall|t: AssetId| t != id && old(self).has_pair(t) implies #[trigger] self.batch(t) == old(self).batch(t) by {
                let c = old(self).pair_index(t);
                assert(after[c] == before[c]);
                let d = self.pair_index(t);
                assert(after[d].pair.asset_id == t);
                assert(d < n);
                if d < c {
                    assert(after[d].pair.asset_id != after[c].pair.asset_id);
                } else if c < d {
                    assert(after[c].pair.asset_id != after[d].pair.asset_id);
                }
            }
        }
    }

    /// Creates the pair of `asset_id` with the liquidity token
    /// `liquidity_token_id`: registers the token, moves the initial
    /// liquidity of `caller` into custody, mints `caller` liquidity tokens
    /// worth its currency in asset units, and opens empty queues.
    #[verifier::rlimit(40)]
    pub fn create_pair(&mut self, caller: AccountId, asset_id: AssetId, liquidity_token_id: AssetId, currency_amount: Balance, token_amount: Balance) -> (r: Result<(), Error>)
        requires
            old(self).wf(),
        ensures
            final(self).wf(),
            match creation(*old(self), caller, asset_id, liquidity_token_id, currency_amount, token_amount) {
                Err(e) => r == Err::<(), Error>(e) && *final(self) == *old(self),
                Ok((cm, hm)) => {
                    let minted = old(self).config().to_asset(currency_amount as int);
                    let after = final(self).batch(asset_id);
                    &&& r is Ok
                    &&& final(self).currency() == cm
                    &&& final(self).registry().has(liquidity_token_id)
                    &&& forall|t: AssetId| t != liquidity_token_id ==> #[trigger] final(self).registry().has(t) == old(self).registry().has(t)
                    &&& final(self).registry().holders(asset_id) == hm
                    &&& final(self).registry().issuance(asset_id) == old(self).registry().issuance(asset_id)
                    &&& final(self).registry().holders(liquidity_token_id)
                        == Map::new(|k: AccountId| true, |k: AccountId| 0 as Balance).insert(caller, minted as Balance)
                    &&& final(self).registry().issuance(liquidity_token_id) == minted
                    &&& forall|t: AssetId| t != asset_id && t != liquidity_token_id ==> #[trigger] final(self).registry().holders(t) == old(self).registry().holders(t)
                        && final(self).registry().issuance(t) == old(self).registry().issuance(t)
                    &&& final(self).has_pair(asset_id)
                    &&& after.pair == (Pair { asset_id, currency_reserve: currency_amount, token_reserve: token_amount, liquidity_token_id })
                    &&& after.currency_queue@.len() == 0
                    &&& after.asset_queue@.len() == 0
                    &&& after.currency_cumulative.entries().len() == 0
                    &&& after.asset_cumulative.entries().len() == 0
                    &&& forall|t: AssetId| t != asset_id ==> #[trigger] final(self).has_pair(t) == old(self).has_pair(t)
                    &&& forall|t: AssetId| t != asset_id && old(self).has_pair(t) ==> #[trigger] final(self).batch(t) == old(self).batch(t)
                },
            },
            final(self).config() == old(self).config(),
            final(self).now() == old(self).now(),
    {
        let cfg = self.config;
        if currency_amount < cfg.min_initial_currency {
            return Err(Error::CurrencyAmountTooLow);
        }
        if token_amount < cfg.min_initial_token {
            return Err(Error::TokenAmountTooLow);
        }
        if self.assets.total_issuance(asset_id) == 0 {
            return Err(Error::AssetNotFound);
        }
        if self.find_pair(asset_id).is_some() {
            return Err(Error::PairAlreadyExists);
        }
        let mut assets = self.assets.copy();
        let ghost copied = assets;
        assets.create(liquidity_token_id)?;
        let minted = cfg.currency_to_asset(currency_amount);
        proof {
            self.assets.lemma_registry_facts(asset_id);
            assert(copied.has(asset_id));
            assert(asset_id != liquidity_token_id);
            assert forall|t: AssetId| t != liquidity_token_id implies #[trigger] assets.holders(t) == self.assets.holders(t)
                && assets.issuance(t) == self.assets.issuance(t) && assets.has(t) == self.assets.has(t) by {
                assert(copied.holders(t) == self.assets.holders(t));
                assert(copied.issuance(t) == self.assets.issuance(t));
                assert(copied.has(t) == self.assets.has(t));
                assert(assets.has(t) == copied.has(t));
                assert(assets.issuance(t) == copied.issuance(t));
                assert(assets.holders(t) == copied.holders(t));
            }
            assert(self.assets.has(asset_id));
            assert(assets.balance_of(liquidity_token_id, caller) == 0);
            assets.lemma_registry_facts(liquidity_token_id);
        }
        proof {
            assert(assets.holders(asset_id) == self.assets.holders(asset_id));
            assert(assets.has(asset_id));
        }
        let (currency, joined_assets) = inner_add_liquidity(&cfg, &self.currency, &assets, asset_id, liquidity_token_id, caller, currency_amount, token_amount, minted)?;
        proof {
            assert forall|t: AssetId| t != liquidity_token_id implies #[trigger] joined_assets.has(t) == self.assets.has(t) by {
                assert(assets.has(t) == self.assets.has(t));
            }
            assert forall|t: AssetId| t != asset_id && t != liquidity_token_id implies #[trigger] joined_assets.holders(t) == self.assets.holders(t)
                && joined_assets.issuance(t) == self.assets.issuance(t) by {
                assert(assets.holders(t) == self.assets.holders(t));
                assert(assets.issuance(t) == self.assets.issuance(t));
            }
            assert(assets.issuance(asset_id) == self.assets.issuance(asset_id));
        }
        let pair = Pair { asset_id, currency_reserve: currency_amount, token_reserve: token_amount, liquidity_token_id };
        let created = PairState {
            pair,
            currency_queue: Vec::new(),
            asset_queue: Vec::new(),
            currency_cumulative: Balances::new(),
            asset_cumulative: Balances::new(),
        };
        let ghost before = *self;
        self.push_pair(created);
        let ghost mid = *self;
        self.currency = currency;
        self.assets = joined_assets;
        self.events.push(Event::PairCreated(asset_id, liquidity_token_id));
        self.events.push(Event::LiquidityAdded(caller, asset_id, currency_amount, token_amount, minted));
        proof {
            assert(self.pairs == mid.pairs);
            assert forall|t: AssetId| #[trigger] self.has_pair(t) == mid.has_pair(t) by {}
            assert forall|t: AssetId| #[trigger] self.batch(t) == mid.batch(t) by {}
            assert(self.registry().holders(liquidity_token_id) =~= Map::new(|k: AccountId| true, |k: AccountId| 0 as Balance).insert(caller, minted as Balance)) by {
                assert forall|k: AccountId| #[trigger] assets.holders(liquidity_token_id)[k] == 0 by {
                    assert(assets.balance_of(liquidity_token_id, k) == 0);
                }
                assert(assets.holders(liquidity_token_id).dom() == Set::<AccountId>::full());
                assert(assets.holders(liquidity_token_id) =~= Map::new(|k: AccountId| true, |k: AccountId| 0 as Balance));
            }
            assert forall|j: int| 0 <= j < self.pairs@.len() implies (#[trigger] self.pairs@[j]).wf()
                && self.assets.has(self.pairs@[j].pair.asset_id)
                && self.assets.has(self.pairs@[j].pair.liquidity_token_id) by {
                if j < before.pairs@.len() {
                    assert(self.pairs@[j] == before.pairs@[j]);
                    assert(before.pairs@[j].wf());
                    assert(before.assets.has(before.pairs@[j].pair.asset_id));
                    assert(before.assets.has(before.pairs@[j].pair.liquidity_token_id));
                }
            }
        }
        Ok(())
    }

    /// Adds liquidity to the pair `asset_id`: `currency_amount` joins in
    /// proportion to the currency reserve, the tokens owed (one unit more)
    /// must not exceed `max_tokens` and the liquidity minted must reach
    /// `min_liquidity`.
    #[verifier::rlimit(40)]
    pub fn add_liquidity(&mut self, caller: AccountId, asset_id: AssetId, currency_amount: Balance, min_liquidity: Balance, max_tokens: Balance, deadline: u64) -> (r: Result<(), Error>)
        requires
            old(self).wf(),
        ensures
            final(self).wf(),
            match joining(*old(self), caller, asset_id, currency_amount, min_liquidity, max_tokens, deadline) {
                Err(e) => r == Err::<(), Error>(e) && *final(self) == *old(self),
                Ok((tokens, minted, cm, hm, lm)) => {
                    let ps = old(self).batch(asset_id);
                    let cfg = old(self).config();
                    let after = final(self).batch(asset_id);
                    &&& r is Ok
                    &&& final(self).currency() == cm
                    &&& old(self).registry().with_two_holders(&final(self).registry(), asset_id, hm, ps.pair.liquidity_token_id, lm)
                    &&& final(self).registry().issuance(ps.pair.liquidity_token_id) == old(self).registry().issuance(ps.pair.liquidity_token_id) + minted
                    &&& final(self).has_pair(asset_id)
                    &&& after.pair == with_reserves(ps.pair, ps.pair.currency_reserve + cfg.to_currency(cfg.to_asset(currency_amount as int)), ps.pair.token_reserve + tokens)
                    &&& after.currency_queue@ == ps.currency_queue@
                    &&& after.asset_queue@ == ps.asset_queue@
                    &&& after.currency_cumulative.entries() == ps.currency_cumulative.entries()
                    &&& after.asset_cumulative.entries() == ps.asset_cumulative.entries()
                },
            },
            old(self).same_but_pair(&*final(self), asset_id),
    {
        self.check_deadline(deadline)?;
        if currency_amount == 0 {
            return Err(Error::CurrencyAmountIsZero);
        }
        if max_tokens == 0 {
            return Err(Error::MaxTokensIsZero);
        }
        if min_liquidity == 0 {
            return Err(Error::MinLiquidityIsZero);
        }
        self.check_enough_currency(caller, currency_amount)?;
        self.check_enough_tokens(asset_id, caller, max_tokens)?;
        let i = match self.find_pair(asset_id) {
            Some(i) => i,
            None => return Err(Error::PairNotFound),
        };
        proof {
            self.lemma_batch_wf(asset_id);
        }
        let cfg = self.config;
        let ps = &self.pairs[i];
        let lt = ps.pair.liquidity_token_id;
        let total_liquidity = self.assets.total_issuance(lt);
        let (tokens, minted) = compute_join(&cfg, &ps.pair, currency_amount, total_liquidity)?;
        if tokens > max_tokens {
            return Err(Error::MaxTokensTooLow);
        }
        if minted < min_liquidity {
            return Err(Error::MinLiquidityTooHigh);
        }
        let in_asset = cfg.currency_to_asset(currency_amount);
        let paid = match cfg.asset_to_currency(in_asset) {
            Some(v) => v,
            None => return Err(Error::Overflow),
        };
        proof {
            assert(paid <= currency_amount) by (nonlinear_arith)
                requires
                    paid == (currency_amount / cfg.currency_per_asset) * cfg.currency_per_asset,
                    cfg.currency_per_asset >= 1,
            ;
        }
        if ps.pair.currency_reserve > MAX_BALANCE - paid || ps.pair.token_reserve > MAX_BALANCE - tokens {
            return Err(Error::Overflow);
        }
        let (currency, joined_assets) = inner_add_liquidity(&cfg, &self.currency, &self.assets, asset_id, lt, caller, paid, tokens, minted)?;
        let pair = Pair {
            asset_id,
            currency_reserve: ps.pair.currency_reserve + paid,
            token_reserve: ps.pair.token_reserve + tokens,
            liquidity_token_id: lt,
        };
        let next = PairState {
            pair,
            currency_queue: copy_accounts(&ps.currency_queue),
            asset_queue: copy_accounts(&ps.asset_queue),
            currency_cumulative: ps.currency_cumulative.copy(),
            asset_cumulative: ps.asset_cumulative.copy(),
        };
        let ghost before = *self;
        self.put_pair(i, next);
        let ghost mid = *self;
        self.currency = currency;
        self.assets = joined_assets;
        self.events.push(Event::LiquidityAdded(caller, asset_id, paid, tokens, minted));
        proof {
            self.lemma_after_put(before, mid, i as int, asset_id);
        }
        Ok(())
    }

    /// The parameters.
    pub fn get_config(&self) -> (r: Config)
        ensures
            r == self.config(),
    {
        self.config
    }

    /// The current block number.
    pub fn block_number(&self) -> (r: u64)
        ensures
            r == self.now(),
    {
        self.block_number
    }

    /// Moves to block `n`.
    pub fn set_block_number(&mut self, n: u64)
        requires
            old(self).wf(),
        ensures
            final(self).wf(),
            final(self).now() == n,
            final(self).config() == old(self).config(),
            final(self).currency() == old(self).currency(),
            final(self).registry() == old(self).registry(),
            forall|t: AssetId| #[trigger] final(self).has_pair(t) == old(self).has_pair(t),
            forall|t: AssetId| #[trigger] final(self).batch(t) == old(self).batch(t),
    {
        self.block_number = n;
        proof {
            assert(self.pairs == old(self).pairs);
            assert forall|t: AssetId| #[trigger] self.has_pair(t) == old(self).has_pair(t) by {}
            assert forall|t: AssetId| #[trigger] self.batch(t) == old(self).batch(t) by {}
        }
    }

    /// The events recorded so far, oldest first.
    pub fn events(&self) -> (r: &Vec<Event>)
        ensures
            r@ == self.recorded(),
    {
        &self.events
    }

    /// The free currency balance of `who`.
    pub fn free_balance(&self, who: AccountId) -> (r: Balance)
        requires
            self.wf(),
        ensures
            r == self.currency()[who],
    {
        self.currency.balance(who)
    }

    /// Sets the free currency balance of `who`, as the currency ledger's
    /// owner may.
    pub fn set_free_balance(&mut self, who: AccountId, amount: Balance)
        requires
            old(self).wf(),
        ensures
            final(self).wf(),
            final(self).currency() == old(self).currency().insert(who, amount),
            final(self).config() == old(self).config(),
            final(self).now() == old(self).now(),
            final(self).registry() == old(self).registry(),
            forall|t: AssetId| #[trigger] final(self).has_pair(t) == old(self).has_pair(t),
            forall|t: AssetId| #[trigger] final(self).batch(t) == old(self).batch(t),
    {
        self.currency.set_balance(who, amount);
        proof {
            assert(self.pairs == old(self).pairs);
            assert forall|t: AssetId| #[trigger] self.has_pair(t) == old(self).has_pair(t) by {}
            assert forall|t: AssetId| #[trigger] self.batch(t) == old(self).batch(t) by {}
        }
    }

    /// Moves `amount` of currency from `from` to `to`.
    pub fn transfer_currency(&mut self, from: AccountId, to: AccountId, amount: Balance) -> (r: Result<(), Error>)
        requires
            old(self).wf(),
        ensures
            final(self).wf(),
            match transfer_result(old(self).currency(), from, to, amount, Error::BalanceTooLow) {
                Ok(m) => r is Ok && final(self).currency() == m,
                Err(e) => r == Err::<(), Error>(e) && final(self).currency() == old(self).currency(),
            },
            final(self).config() == old(self).config(),
            final(self).now() == old(self).now(),
            final(self).registry() == old(self).registry(),
            forall|t: AssetId| #[trigger] final(self).has_pair(t) == old(self).has_pair(t),
            forall|t: AssetId| #[trigger] final(self).batch(t) == old(self).batch(t),
    {
        let r = self.currency.transfer(from, to, amount, Error::BalanceTooLow);
        proof {
            assert(self.pairs == old(self).pairs);
            assert forall|t: AssetId| #[trigger] self.has_pair(t) == old(self).has_pair(t) by {}
            assert forall|t: AssetId| #[trigger] self.batch(t) == old(self).batch(t) by {}
        }
        r
    }

    /// Registers the token `id`; `TokenIdAlreadyInUse` where it is.
    pub fn create_asset(&mut self, id: AssetId) -> (r: Result<(), Error>)
        requires
            old(self).wf(),
        ensures
            final(self).wf(),
            r is Ok <==> !old(self).registry().has(id),
            r is Err ==> r == Err::<(), Error>(Error::TokenIdAlreadyInUse) && *final(self) == *old(self),
            r is Ok ==> final(self).registry().has(id) && final(self).registry().issuance(id) == 0,
            final(self).currency() == old(self).currency(),
            forall|t: AssetId| #[trigger] final(self).has_pair(t) == old(self).has_pair(t),
            forall|t: AssetId| #[trigger] final(self).batch(t) == old(self).batch(t),
    {
        let r = self.assets.create(id);
        proof {
            assert(self.pairs == old(self).pairs);
            assert forall|t: AssetId| #[trigger] self.has_pair(t) == old(self).has_pair(t) by {}
            assert forall|t: AssetId| #[trigger] self.batch(t) == old(self).batch(t) by {}
            assert forall|j: int| 0 <= j < self.pairs@.len() implies (#[trigger] self.pairs@[j]).wf()
                && self.assets.has(self.pairs@[j].pair.asset_id)
                && self.assets.has(self.pairs@[j].pair.liquidity_token_id) by {
                assert(old(self).pairs@[j].wf());
                assert(old(self).assets.has(old(self).pairs@[j].pair.asset_id));
                assert(old(self).assets.has(old(self).pairs@[j].pair.liquidity_token_id));
            }
        }
        r
    }

    /// Mints `amount` of the token `id` to `who`.
    pub fn mint_asset(&mut self, id: AssetId, who: AccountId, amount: Balance) -> (r: Result<(), Error>)
        requires
            old(self).wf(),
        ensures
            final(self).wf(),
            r is Ok <==> old(self).registry().has(id) && old(self).registry().balance_of(id, who) + amount <= MAX_BALANCE
                && old(self).registry().issuance(id) + amount <= MAX_BALANCE,
            r is Err ==> *final(self) == *old(self),
            r is Ok ==> final(self).registry().issuance(id) == old(self).registry().issuance(id) + amount
                && old(self).registry().with_holders(&final(self).registry(), id,
                    old(self).registry().holders(id).insert(who, (old(self).registry().balance_of(id, who) + amount) as Balance)),
            final(self).currency() == old(self).currency(),
            forall|t: AssetId| #[trigger] final(self).has_pair(t) == old(self).has_pair(t),
            forall|t: AssetId| #[trigger] final(self).batch(t) == old(self).batch(t),
    {
        let r = self.assets.mint_into(id, who, amount);
        proof {
            assert(self.pairs == old(self).pairs);
            assert forall|t: AssetId| #[trigger] self.has_pair(t) == old(self).has_pair(t) by {}
            assert forall|t: AssetId| #[trigger] self.batch(t) == old(self).batch(t) by {}
            assert forall|j: int| 0 <= j < self.pairs@.len() implies (#[trigger] self.pairs@[j]).wf()
                && self.assets.has(self.pairs@[j].pair.asset_id)
                && self.assets.has(self.pairs@[j].pair.liquidity_token_id) by {
                assert(old(self).pairs@[j].wf());
                assert(old(self).assets.has(old(self).pairs@[j].pair.asset_id));
                assert(old(self).assets.has(old(self).pairs@[j].pair.liquidity_token_id));
            }
        }
        r
    }

    /// Moves `amount` of the token `id` from `from` to `to`.
    pub fn transfer_asset(&mut self, id: AssetId, from: AccountId, to: AccountId, amount: Balance) -> (r: Result<(), Error>)
        requires
            old(self).wf(),
        ensures
            final(self).wf(),
            !old(self).registry().has(id) ==> r == Err::<(), Error>(Error::AssetNotFound) && *final(self) == *old(self),
            old(self).registry().has(id) ==> match transfer_result(old(self).registry().holders(id), from, to, amount, Error::NotEnoughTokens) {
                Ok(m) => r is Ok && old(self).registry().with_holders(&final(self).registry(), id, m)
                    && final(self).registry().issuance(id) == old(self).registry().issuance(id),
                Err(e) => r == Err::<(), Error>(e) && *final(self) == *old(self),
            },
            final(self).currency() == old(self).currency(),
            forall|t: AssetId| #[trigger] final(self).has_pair(t) == old(self).has_pair(t),
            forall|t: AssetId| #[trigger] final(self).batch(t) == old(self).batch(t),
    {
        let r = self.assets.transfer(id, from, to, amount);
        proof {
            assert(self.pairs == old(self).pairs);
            assert forall|t: AssetId| #[trigger] self.has_pair(t) == old(self).has_pair(t) by {}
            assert forall|t: AssetId| #[trigger] self.batch(t) == old(self).batch(t) by {}
            assert forall|j: int| 0 <= j < self.pairs@.len() implies (#[trigger] self.pairs@[j]).wf()
                && self.assets.has(self.pairs@[j].pair.asset_id)
                && self.assets.has(self.pairs@[j].pair.liquidity_token_id) by {
                assert(old(self).pairs@[j].wf());
                assert(old(self).assets.has(old(self).pairs@[j].pair.asset_id));
                assert(old(self).assets.has(old(self).pairs@[j].pair.liquidity_token_id));
            }
        }
        r
    }

    /// What `who` holds of the token `id`.
    pub fn asset_balance(&self, id: AssetId, who: AccountId) -> (r: Balance)
        requires
            self.wf(),
        ensures
            r == self.registry().balance_of(id, who),
    {
        self.assets.balance(id, who)
    }

    /// The issuance of the token `id`.
    pub fn total_issuance(&self, id: AssetId) -> (r: Balance)
        requires
            self.wf(),
        ensures
            r == self.registry().issuance(id),
    {
        self.assets.total_issuance(id)
    }

    /// The pair of `asset_id`; `PairNotFound` where there is none.
    pub fn get_pair(&self, asset_id: AssetId) -> (r: Result<Pair, Error>)
        requires
            self.wf(),
        ensures
            r is Ok <==> self.has_pair(asset_id),
            r matches Ok(p) ==> p == self.batch(asset_id).pair,
            r is Err ==> r == Err::<Pair, Error>(Error::PairNotFound),
    {
        match self.find_pair(asset_id) {
            Some(i) => Ok(self.pairs[i].pair),
            None => Err(Error::PairNotFound),
        }
    }

    /// The currency-for-asset queue of `asset_id`.
    pub fn get_pair_currency_queue(&self, asset_id: AssetId) -> (r: Result<Vec<AccountId>, Error>)
        requires
            self.wf(),
        ensures
            r is Ok <==> self.has_pair(asset_id),
            r matches Ok(q) ==> q@ == self.batch(asset_id).currency_queue@,
            r is Err ==> r == Err::<Vec<AccountId>, Error>(Error::PairNotFound),
    {
        match self.find_pair(asset_id) {
            Some(i) => Ok(copy_accounts(&self.pairs[i].currency_queue)),
            None => Err(Error::PairNotFound),
        }
    }

    /// The asset-for-currency queue of `asset_id`.
    pub fn get_pair_asset_queue(&self, asset_id: AssetId) -> (r: Result<Vec<AccountId>, Error>)
        requires
            self.wf(),
        ensures
            r is Ok <==> self.has_pair(asset_id),
            r matches Ok(q) ==> q@ == self.batch(asset_id).asset_queue@,
            r is Err ==> r == Err::<Vec<AccountId>, Error>(Error::PairNotFound),
    {
        match self.find_pair(asset_id) {
            Some(i) => Ok(copy_accounts(&self.pairs[i].asset_queue)),
            None => Err(Error::PairNotFound),
        }
    }

    /// The currency `who` escrowed for the pending batch of `asset_id`
    /// (zero where there is no such pair).
    pub fn get_pair_currency_cumulative(&self, asset_id: AssetId, who: AccountId) -> (r: Balance)
        requires
            self.wf(),
        ensures
            r == (if self.has_pair(asset_id) { self.batch(asset_id).currency_cumulative@[who] } else { 0 }),
    {
        match self.find_pair(asset_id) {
            Some(i) => {
                proof {
                    self.lemma_batch_wf(asset_id);
                }
                self.pairs[i].currency_cumulative.balance(who)
            },
            None => 0,
        }
    }

    /// The tokens `who` escrowed for the pending batch of `asset_id` (zero
    /// where there is no such pair).
    pub fn get_pair_asset_cumulative(&self, asset_id: AssetId, who: AccountId) -> (r: Balance)
        requires
            self.wf(),
        ensures
            r == (if self.has_pair(asset_id) { self.batch(asset_id).asset_cumulative@[who] } else { 0 }),
    {
        match self.find_pair(asset_id) {
            Some(i) => {
                proof {
                    self.lemma_batch_wf(asset_id);
                }
                self.pairs[i].asset_cumulative.balance(who)
            },
            None => 0,
        }
    }

    /// Fails with `AssetNotFound` where `asset_id` is not registered and
    /// with `NotEnoughTokens` where `who` holds less than `amount` of it.
    pub fn check_enough_tokens(&self, asset_id: AssetId, who: AccountId, amount: Balance) -> (r: Result<(), Error>)
        requires
            self.wf(),
        ensures
            r == (if !self.registry().has(asset_id) {
                Err::<(), Error>(Error::AssetNotFound)
            } else if self.registry().balance_of(asset_id, who) < amount {
                Err(Error::NotEnoughTokens)
            } else {
                Ok(())
            }),
    {
        match self.assets.can_withdraw(asset_id, who, amount) {
            WithdrawConsequence::Success => Ok(()),
            WithdrawConsequence::UnknownAsset => Err(Error::AssetNotFound),
            WithdrawConsequence::BalanceLow => Err(Error::NotEnoughTokens),
        }
    }

    /// Fails with `BalanceTooLow` where `who` holds less than `amount` of
    /// currency.
    pub fn check_enough_currency(&self, who: AccountId, amount: Balance) -> (r: Result<(), Error>)
        requires
            self.wf(),
        ensures
            r is Ok <==> self.currency()[who] >= amount,
            r is Err ==> r == Err::<(), Error>(Error::BalanceTooLow),
    {
        if self.currency.balance(who) < amount {
            return Err(Error::BalanceTooLow);
        }
        Ok(())
    }

    /// Fails with `DeadlinePassed` where `deadline` is before the current
    /// block.
    pub fn check_deadline(&self, deadline: u64) -> (r: Result<(), Error>)
        ensures
            r is Ok <==> deadline >= self.now(),
            r is Err ==> r == Err::<(), Error>(Error::DeadlinePassed),
    {
        if deadline < self.block_number {
            return Err(Error::DeadlinePassed);
        }
        Ok(())
    }

    /// After a batch was replaced by a well-formed one of the same asset and
    /// the currency, registry or events changed, with every pair's asset
    /// still registered, the state is well formed and only that pair changed.
    proof fn lemma_after_put(&self, before: Pallet, mid: Pallet, i: int, id: AssetId)
        requires
            before.wf(),
            0 <= i < before.pairs@.len(),
            before.pairs@[i].pair.asset_id == id,
            mid.pairs@.len() == before.pairs@.len(),
            mid.pairs@ == before.pairs@.update(i, mid.pairs@[i]),
            mid.pairs@[i].wf(),
            mid.pairs@[i].pair.asset_id == id,
            mid.pairs@[i].pair.liquidity_token_id == before.pairs@[i].pair.liquidity_token_id,
            forall|a: int, b: int| 0 <= a < b < mid.pairs@.len() ==> mid.pairs@[a].pair.asset_id != mid.pairs@[b].pair.asset_id,
            before.same_but_pair(&mid, id),
            self.pairs == mid.pairs,
            self.config == before.config,
            self.block_number == before.block_number,
            self.currency.wf(),
            self.assets.wf(),
            forall|t: AssetId| #[trigger] self.assets.has(t) == before.assets.has(t),
        ensures
            self.wf(),
            before.same_but_pair(self, id),
    {
        assert forall|j: int| 0 <= j < self.pairs@.len() implies (#[trigger] self.pairs@[j]).wf()
            && self.assets.has(self.pairs@[j].pair.asset_id)
            && self.assets.has(self.pairs@[j].pair.liquidity_token_id) by {
            assert(before.pairs@[j].wf());
            assert(before.assets.has(before.pairs@[j].pair.asset_id));
            assert(before.assets.has(before.pairs@[j].pair.liquidity_token_id));
        }
        assert forall|t: AssetId| #[trigger] self.has_pair(t) == mid.has_pair(t) by {}
        assert forall|t: AssetId| #[trigger] self.batch(t) == mid.batch(t) by {}
    }
}

} // verus!
